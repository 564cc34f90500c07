//! The pool of a torrent's pieces: how they are laid out, which piece is
//! fetched next, what a finished block does to its piece, and which peers
//! hold which piece.
use vstd::prelude::*;
use std::collections::HashMap;
use crate::terror::piece::{Block, BlockState, Piece, PieceState, Priority};
use crate::terror::torrent::{
    f64_exact_limit, pieces_for, text_of, texts_of, FileInfo, FileInfoModel, Info, Torrent,
};
use crate::terror::piece::{start_of, end_of};
use crate::terror::torrent::clone_text;
use crate::terror::torrent::torrent_downloader::{CompletedTask, DownloadBlock};
use crate::buffers::{bytes_as_slice, bytes_contents};
use crate::digest::sha1_hash;
use bytes::Bytes;

verus! {

broadcast use vstd::std_specs::hash::group_hash_axioms;

pub struct PiecePool {
    /// The pieces, by index.
    pub pieces: HashMap<usize, Piece>,
    /// How many pieces the torrent has; the keys are `0..number_of_pieces`.
    pub number_of_pieces: usize,
    pub torrent: Torrent,
    /// The peers known to hold each piece, each named once.
    pub piece_peer_map: HashMap<usize, Vec<String>>,
}

/// The length of piece `i` of `n`: the piece length, but for the last piece,
/// which gets the remainder of the size divided by the piece length.
pub open spec fn piece_len_at(total: int, piece_length: int, n: int, i: int) -> int {
    if i == n - 1 {
        total % piece_length
    } else {
        piece_length
    }
}

/// The number of blocks of a piece of `len` bytes: `len / 16384` rounded up.
pub open spec fn blocks_in(len: int) -> int {
    (len + 16383) / 16384
}

/// The size of block `j` of a piece of `len` bytes: a full block, but for
/// the last block of the last piece, which gets `len % 16384`.
pub open spec fn block_size_at(len: int, last_piece: bool, j: int) -> int {
    if j == blocks_in(len) - 1 && last_piece {
        len % 16384
    } else {
        16384
    }
}

/// A file record covers piece `i` when `i` lies between its first and last
/// piece (each zero when absent).
pub open spec fn covers(f: FileInfoModel, i: int) -> bool {
    start_of(f) <= i <= end_of(f)
}

/// The files among `fs` that cover piece `i`, in order.
pub open spec fn covering(fs: Seq<FileInfoModel>, i: int) -> Seq<FileInfoModel>
    decreases fs.len(),
{
    if fs.len() == 0 {
        Seq::empty()
    } else if covers(fs.last(), i) {
        covering(fs.drop_last(), i).push(fs.last())
    } else {
        covering(fs.drop_last(), i)
    }
}

pub open spec fn files_view(fs: Seq<FileInfo>) -> Seq<FileInfoModel> {
    fs.map_values(|f: FileInfo| f@)
}

/// The one file of a single-file torrent of `n` pieces: named after the
/// torrent, spanning every piece from offset zero.
pub open spec fn single_file(info: Info, n: int) -> FileInfoModel {
    FileInfoModel {
        name: Some(info.name@),
        length: info.total_length() as usize,
        path: seq![info.name@],
        md5sum: text_of(info.md5hash),
        offset: Some(0),
        start_piece: Some(0),
        end_piece: Some((n - 1) as usize),
        priority: Some(Priority::Normal),
    }
}

/// The files piece `i` of `n` is written to.
pub open spec fn files_of_piece(info: Info, n: int, i: int) -> Seq<FileInfoModel> {
    match info.files {
        Some(fs) => covering(files_view(fs@), i),
        None => seq![single_file(info, n)],
    }
}

/// Block `j` of a new piece of `len` bytes.
pub open spec fn laid_out_block(b: Block, len: int, last_piece: bool, j: int) -> bool {
    &&& b.index == j
    &&& b.begin == j * 16384
    &&& b.block_size == block_size_at(len, last_piece, j)
    &&& b.block_state is Missing
}

/// Piece `i` of `n` as the pool lays it out: its length, its slice of the
/// hashes, its blocks, all missing, normal priority, and its files.
pub open spec fn laid_out_piece(p: Piece, info: Info, n: int, i: int) -> bool {
    let len = piece_len_at(info.total_length(), info.piece_length.unwrap() as int, n, i);
    &&& p.index == i
    &&& p.length == len
    &&& p.piece_hash@ == info.pieces@.subrange(20 * i, 20 * i + 20)
    &&& p.piece_state is Missing
    &&& p.blocks@.len() == blocks_in(len)
    &&& p.number_of_blocks == blocks_in(len)
    &&& forall|j: int|
        0 <= j < blocks_in(len) ==> laid_out_block(#[trigger] p.blocks@[j], len, i == n - 1, j)
    &&& p.priority == Priority::Normal
    &&& files_view(p.files@) == files_of_piece(info, n, i)
}

/// The torrent can be laid out in pieces: its piece length is known and
/// positive, its size is known and below 2^53, and it has a hash for every
/// piece.
pub open spec fn layout_defined(info: Info) -> bool {
    &&& info.piece_length is Some
    &&& info.piece_length.unwrap() > 0
    &&& info.piece_length.unwrap() + 16383 <= usize::MAX
    &&& info.length_defined()
    &&& info.total_length() <= f64_exact_limit()
    &&& info.pieces@.len() >= 20 * pieces_for(info.total_length(), info.piece_length.unwrap() as int)
}

/// A piece's blocks are numbered by their positions.
pub open spec fn piece_wf(p: Piece) -> bool {
    &&& p.number_of_blocks == p.blocks@.len()
    &&& forall|j: int| 0 <= j < p.blocks@.len() ==> (#[trigger] p.blocks@[j]).index == j
}

/// A list of peers names each peer once.
pub open spec fn no_repeats(v: Seq<String>) -> bool {
    forall|a: int, b: int| 0 <= a < b < v.len() ==> (#[trigger] v[a])@ != (#[trigger] v[b])@
}

impl PiecePool {
    /// The pool is consistent: the pieces are keyed `0..number_of_pieces`,
    /// each under its own index and with its blocks numbered in order, and
    /// no peer is listed twice for a piece.
    pub open spec fn wf(&self) -> bool {
        &&& forall|i: usize| 0 <= i < self.number_of_pieces ==> #[trigger] self.pieces@.contains_key(i)
        &&& forall|k: usize| #[trigger]
            self.pieces@.contains_key(k) ==> k < self.number_of_pieces && self.pieces@[k].index == k
                && piece_wf(self.pieces@[k])
        &&& forall|k: usize| #[trigger]
            self.piece_peer_map@.contains_key(k) ==> no_repeats(self.piece_peer_map@[k]@)
    }
}

/// A copy of `s[a..b]`.
fn copy_range(s: &[u8], a: usize, b: usize) -> (r: Vec<u8>)
    requires
        a <= b <= s@.len(),
    ensures
        r@ == s@.subrange(a as int, b as int),
{
    let mut r: Vec<u8> = Vec::new();
    let mut i: usize = a;
    while i < b
        invariant
            a <= i <= b,
            b <= s@.len(),
            r@ == s@.subrange(a as int, i as int),
        decreases b - i,
    {
        r.push(s[i]);
        i = i + 1;
        assert(r@ =~= s@.subrange(a as int, i as int));
    }
    r
}

proof fn lemma_covering_step(fs: Seq<FileInfoModel>, k: int, i: int)
    requires
        0 <= k < fs.len(),
    ensures
        covering(fs.take(k + 1), i) == if covers(fs[k], i) {
            covering(fs.take(k), i).push(fs[k])
        } else {
            covering(fs.take(k), i)
        },
{
    assert(fs.take(k + 1).drop_last() =~= fs.take(k));
    assert(fs.take(k + 1).last() == fs[k]);
}

/// The files among `files` that cover piece `index`, copied.
fn files_covering(files: &Vec<FileInfo>, index: usize) -> (r: Vec<FileInfo>)
    ensures
        files_view(r@) == covering(files_view(files@), index as int),
{
    let mut r: Vec<FileInfo> = Vec::new();
    let mut k: usize = 0;
    while k < files.len()
        invariant
            k <= files@.len(),
            files_view(r@) == covering(files_view(files@).take(k as int), index as int),
        decreases files@.len() - k,
    {
        let f = &files[k];
        let start = match f.start_piece {
            Some(s) => s,
            None => 0,
        };
        let end = match f.end_piece {
            Some(e) => e,
            None => 0,
        };
        proof {
            lemma_covering_step(files_view(files@), k as int, index as int);
            assert(files_view(files@).take(k as int + 1) =~= files_view(files@.take(k as int + 1)));
            assert(files_view(files@).take(k as int) =~= files_view(files@.take(k as int)));
        }
        if start <= index && index <= end {
            let c = f.duplicate();
            r.push(c);
            proof {
                assert(files_view(r@) =~= files_view(r@.drop_last()).push(c@));
            }
        }
        k = k + 1;
    }
    assert(files_view(files@).take(files@.len() as int) =~= files_view(files@));
    r
}

/// The blocks of a new piece of `len` bytes, all missing.
fn lay_out_blocks(len: usize, last_piece: bool) -> (blocks: Vec<Block>)
    requires
        len + 16383 <= usize::MAX,
    ensures
        blocks@.len() == blocks_in(len as int),
        forall|j: int|
            0 <= j < blocks_in(len as int) ==> laid_out_block(
                #[trigger] blocks@[j],
                len as int,
                last_piece,
                j,
            ),
{
    let number_of_blocks = (len + 16383) / 16384;
    let mut blocks: Vec<Block> = Vec::new();
    let mut j: usize = 0;
    while j < number_of_blocks
        invariant
            number_of_blocks == blocks_in(len as int),
            number_of_blocks * 16384 <= len + 16383,
            j <= number_of_blocks,
            blocks@.len() == j,
            forall|k: int| 0 <= k < j ==> laid_out_block(#[trigger] blocks@[k], len as int, last_piece, k),
        decreases number_of_blocks - j,
    {
        let block_size = if j == number_of_blocks - 1 && last_piece {
            len % 16384
        } else {
            16384
        };
        blocks.push(Block { index: j, begin: j * 16384, block_size, block_state: BlockState::Missing });
        j = j + 1;
    }
    blocks
}

impl PiecePool {
    /// Piece `i` of `n` of the torrent, laid out.
    fn lay_out_piece(torrent: &Torrent, total: usize, n: usize, i: usize) -> (p: Piece)
        requires
            layout_defined(torrent.info),
            total == torrent.info.total_length(),
            n == pieces_for(total as int, torrent.info.piece_length.unwrap() as int),
            i < n,
        ensures
            laid_out_piece(p, torrent.info, n as int, i as int),
            piece_wf(p),
    {
        let info = &torrent.info;
        let piece_length = info.piece_length.unwrap();
        let length = if i == n - 1 {
            total % piece_length
        } else {
            piece_length
        };
        let blocks = lay_out_blocks(length, i == n - 1);
        let number_of_blocks = blocks.len();
        let hashes_len = info.pieces.len();
        proof {
            assert(20 * i + 20 <= 20 * n) by (nonlinear_arith)
                requires
                    i < n,
            ;
            assert(i * 20 + 20 <= info.pieces@.len());
        }
        let piece_hash = copy_range(info.pieces.as_slice(), i * 20, (i + 1) * 20);
        let files = match &info.files {
            Some(fs) => files_covering(fs, i),
            None => {
                let single = FileInfo {
                    name: Some(info.name.clone()),
                    length: total,
                    path: vec![info.name.clone()],
                    md5sum: clone_text(&info.md5hash),
                    offset: Some(0),
                    start_piece: Some(0),
                    end_piece: Some(n - 1),
                    priority: Some(Priority::Normal),
                };
                let mut v: Vec<FileInfo> = Vec::new();
                v.push(single);
                proof {
                    assert(single@.path =~= seq![info.name@]);
                    assert(files_view(v@) =~= seq![single_file(*info, n as int)]);
                }
                v
            },
        };
        Piece {
            index: i,
            length,
            piece_hash,
            piece_state: PieceState::Missing,
            blocks,
            number_of_blocks,
            priority: Priority::Normal,
            files,
        }
    }
}

impl PiecePool {
    /// Lays the torrent out in pieces: `ceil(size / piece length)` of them,
    /// each with its hash, blocks and files as `laid_out_piece` says, all
    /// missing; no peer is known yet.
    pub fn new(torrent: &Torrent) -> (pool: PiecePool)
        requires
            layout_defined(torrent.info),
        ensures
            pool.wf(),
            pool.number_of_pieces == pieces_for(
                torrent.info.total_length(),
                torrent.info.piece_length.unwrap() as int,
            ),
            forall|i: usize|
                0 <= i < pool.number_of_pieces ==> laid_out_piece(
                    #[trigger] pool.pieces@[i],
                    torrent.info,
                    pool.number_of_pieces as int,
                    i as int,
                ),
            pool.piece_peer_map@ == Map::<usize, Vec<String>>::empty(),
    {
        let total = torrent.info.length();
        let n = torrent.get_number_of_pieces();
        let mut pieces: HashMap<usize, Piece> = HashMap::new();
        let mut i: usize = 0;
        while i < n
            invariant
                layout_defined(torrent.info),
                total == torrent.info.total_length(),
                n == pieces_for(total as int, torrent.info.piece_length.unwrap() as int),
                i <= n,
                forall|k: usize| 0 <= k < i ==> #[trigger] pieces@.contains_key(k),
                forall|k: usize| #[trigger]
                    pieces@.contains_key(k) ==> k < i && pieces@[k].index == k && piece_wf(
                        pieces@[k],
                    ) && laid_out_piece(pieces@[k], torrent.info, n as int, k as int),
            decreases n - i,
        {
            let piece = Self::lay_out_piece(torrent, total, n, i);
            pieces.insert(i, piece);
            i = i + 1;
        }
        assert forall|k: usize| 0 <= k < n implies laid_out_piece(
            #[trigger] pieces@[k],
            torrent.info,
            n as int,
            k as int,
        ) by {
            assert(pieces@.contains_key(k));
        }
        PiecePool {
            pieces,
            number_of_pieces: n,
            torrent: torrent.clone(),
            piece_peer_map: HashMap::new(),
        }
    }
}

/// The piece fetched next among pieces `0..upto`: a missing piece of the
/// highest priority, the first such by index; `None` when none is missing.
pub open spec fn best_missing(m: Map<usize, Piece>, upto: nat) -> Option<usize>
    decreases upto,
{
    if upto == 0 {
        None
    } else {
        let prev = best_missing(m, (upto - 1) as nat);
        let i = (upto - 1) as usize;
        if m[i].piece_state is Missing && (prev is None || m[i].priority.spec_rank()
            < m[prev.unwrap()].priority.spec_rank()) {
            Some(i)
        } else {
            prev
        }
    }
}

/// `b` is the piece to fetch next among `0..upto`: it is missing, no missing
/// piece has a higher priority, and every missing piece before it has a
/// lower one.
pub open spec fn is_next_choice(m: Map<usize, Piece>, upto: nat, b: usize) -> bool {
    &&& b < upto
    &&& m[b].piece_state is Missing
    &&& forall|k: usize| #![trigger m[k]]
        k < upto && m[k].piece_state is Missing ==> m[b].priority.spec_rank()
            <= m[k].priority.spec_rank()
    &&& forall|k: usize| #![trigger m[k]]
        k < b && m[k].piece_state is Missing ==> m[k].priority.spec_rank()
            > m[b].priority.spec_rank()
}

/// No piece among `0..upto` is missing.
pub open spec fn none_missing(m: Map<usize, Piece>, upto: nat) -> bool {
    forall|k: usize| #![trigger m[k]] k < upto ==> !(m[k].piece_state is Missing)
}

/// The choice is the one `is_next_choice` describes, and there is none
/// only when no piece is missing.
pub proof fn lemma_best_missing(m: Map<usize, Piece>, upto: nat)
    requires
        upto <= usize::MAX + 1,
    ensures
        match best_missing(m, upto) {
            Some(b) => is_next_choice(m, upto, b),
            None => none_missing(m, upto),
        },
    decreases upto,
{
    if upto > 0 {
        lemma_best_missing(m, (upto - 1) as nat);
    }
}

/// A piece, now being downloaded.
pub open spec fn downloading(p: Piece) -> Piece {
    Piece { piece_state: PieceState::Downloading, ..p }
}

/// The tasks for the blocks of a piece, in block order.
pub open spec fn tasks_of(p: Piece) -> Seq<DownloadBlock> {
    Seq::new(
        p.blocks@.len(),
        |j: int|
            DownloadBlock {
                piece_index: p.index,
                block_index: p.blocks@[j].index,
                begin: p.blocks@[j].begin,
                length: p.blocks@[j].block_size,
            },
    )
}

/// The pieces, the tasks handed out and whether the pieces ran out, after
/// `k` rounds of fetching the next piece among `0..count`: each round marks
/// the chosen piece as downloading and hands out its blocks, until no piece
/// is missing.
pub open spec fn queue_rounds(m: Map<usize, Piece>, count: nat, k: nat) -> (
    Map<usize, Piece>,
    Seq<DownloadBlock>,
    bool,
)
    decreases k,
{
    if k == 0 {
        (m, Seq::empty(), false)
    } else {
        let (m1, t1, exhausted) = queue_rounds(m, count, (k - 1) as nat);
        if exhausted {
            (m1, t1, true)
        } else {
            match best_missing(m1, count) {
                None => (m1, t1, true),
                Some(b) => (m1.insert(b, downloading(m1[b])), t1 + tasks_of(m1[b]), false),
            }
        }
    }
}

proof fn lemma_rounds_stay_exhausted(m: Map<usize, Piece>, count: nat, k: nat, k2: nat)
    requires
        k <= k2,
        queue_rounds(m, count, k).2,
    ensures
        queue_rounds(m, count, k2) == queue_rounds(m, count, k),
    decreases k2,
{
    if k2 > k {
        lemma_rounds_stay_exhausted(m, count, k, (k2 - 1) as nat);
    }
}

impl PiecePool {
    /// Marks the next piece to fetch as downloading and returns its index:
    /// a missing piece of the highest priority, the first such by index.
    /// `None`, with nothing changed, when no piece is missing.
    pub fn get_next_piece_mut(&mut self) -> (r: Option<usize>)
        requires
            old(self).wf(),
        ensures
            final(self).wf(),
            final(self).number_of_pieces == old(self).number_of_pieces,
            final(self).piece_peer_map == old(self).piece_peer_map,
            r == best_missing(old(self).pieces@, old(self).number_of_pieces as nat),
            match r {
                Some(b) => is_next_choice(old(self).pieces@, old(self).number_of_pieces as nat, b)
                    && final(self).pieces@ == old(self).pieces@.insert(
                    b,
                    downloading(old(self).pieces@[b]),
                ),
                None => none_missing(old(self).pieces@, old(self).number_of_pieces as nat)
                    && final(self).pieces@ == old(self).pieces@,
            },
    {
        let n = self.number_of_pieces;
        let mut best: Option<usize> = None;
        let mut best_rank: u8 = 0;
        let mut i: usize = 0;
        while i < n
            invariant
                self.wf(),
                n == self.number_of_pieces,
                i <= n,
                best == best_missing(self.pieces@, i as nat),
                best is Some ==> best_rank == self.pieces@[best.unwrap()].priority.spec_rank(),
            decreases n - i,
        {
            assert(self.pieces@.contains_key(i));
            let p = self.pieces.get(&i).unwrap();
            let missing = match &p.piece_state {
                PieceState::Missing => true,
                _ => false,
            };
            let rank = p.priority.rank();
            if missing && (best.is_none() || rank < best_rank) {
                best = Some(i);
                best_rank = rank;
            }
            i = i + 1;
        }
        proof {
            lemma_best_missing(self.pieces@, n as nat);
        }
        match best {
            Some(b) => {
                assert(self.pieces@.contains_key(b));
                let mut piece = self.pieces.remove(&b).unwrap();
                piece.set_state(PieceState::Downloading);
                self.pieces.insert(b, piece);
                assert(self.pieces@ =~= old(self).pieces@.insert(b, downloading(old(self).pieces@[b])));
                Some(b)
            },
            None => None,
        }
    }

    /// Hands out the blocks of up to `n` pieces, each chosen as
    /// `get_next_piece_mut` chooses and marked as downloading, in the order
    /// chosen. Returns `Some(n)` with the tasks when `n` pieces were found,
    /// and `None` with the tasks handed out so far when the missing pieces
    /// ran out.
    pub fn queue_n_tasks(&mut self, n: usize) -> (r: (
        Option<usize>,
        Vec<DownloadBlock>,
    ))
        requires
            old(self).wf(),
        ensures
            final(self).wf(),
            final(self).number_of_pieces == old(self).number_of_pieces,
            final(self).piece_peer_map == old(self).piece_peer_map,
            ({
                let q = queue_rounds(old(self).pieces@, old(self).number_of_pieces as nat, n as nat);
                &&& final(self).pieces@ == q.0
                &&& r.1@ == q.1
                &&& r.0 == (if q.2 {
                    None
                } else {
                    Some(n)
                })
            }),
    {
        let mut tasks: Vec<DownloadBlock> = Vec::new();
        let mut i: usize = 0;
        while i < n
            invariant
                self.wf(),
                self.number_of_pieces == old(self).number_of_pieces,
                self.piece_peer_map == old(self).piece_peer_map,
                i <= n,
                queue_rounds(old(self).pieces@, old(self).number_of_pieces as nat, i as nat) == (
                    self.pieces@,
                    tasks@,
                    false,
                ),
            decreases n - i,
        {
            let ghost before = self.pieces@;
            match self.get_next_piece_mut() {
                Some(index) => {
                    assert(self.pieces@.contains_key(index));
                    let piece = self.pieces.get(&index).unwrap();
                    let ghost tasks_before = tasks@;
                    let mut j: usize = 0;
                    while j < piece.blocks.len()
                        invariant
                            j <= piece.blocks@.len(),
                            piece.index == index,
                            tasks@ == tasks_before + tasks_of(*piece).take(j as int),
                        decreases piece.blocks@.len() - j,
                    {
                        let block = &piece.blocks[j];
                        tasks.push(
                            DownloadBlock {
                                piece_index: piece.index,
                                block_index: block.index,
                                begin: block.begin,
                                length: block.block_size,
                            },
                        );
                        j = j + 1;
                        assert(tasks@ =~= tasks_before + tasks_of(*piece).take(j as int));
                    }
                    assert(tasks_of(*piece).take(piece.blocks@.len() as int) =~= tasks_of(*piece));
                    assert(tasks_of(*piece) =~= tasks_of(before[index]));
                },
                None => {
                    proof {
                        lemma_rounds_stay_exhausted(
                            old(self).pieces@,
                            old(self).number_of_pieces as nat,
                            (i + 1) as nat,
                            n as nat,
                        );
                    }
                    return (None, tasks);
                },
            }
            i = i + 1;
        }
        (Some(n), tasks)
    }
}

/// What a finished block did to its piece.
#[derive(Debug, Clone, Copy, PartialEq, Eq, Structural)]
pub enum BlockOutcome {
    /// The piece still has blocks to come.
    Pending,
    /// The piece is complete but its bytes do not have its hash.
    HashMismatch,
    /// The piece is complete and checked: it is ready to be saved.
    Complete,
}

/// The bytes a block holds once downloaded; nothing before.
pub open spec fn data_of(b: Block) -> Seq<u8> {
    match b.block_state {
        BlockState::Downloaded { data } => bytes_contents(data),
        _ => Seq::empty(),
    }
}

/// The bytes of the blocks, in block order.
pub open spec fn concat_data(blocks: Seq<Block>) -> Seq<u8>
    decreases blocks.len(),
{
    if blocks.len() == 0 {
        Seq::empty()
    } else {
        concat_data(blocks.drop_last()) + data_of(blocks.last())
    }
}

/// Every block is downloaded.
pub open spec fn all_downloaded(blocks: Seq<Block>) -> bool {
    forall|j: int| 0 <= j < blocks.len() ==> (#[trigger] blocks[j]).block_state is Downloaded
}

/// `q` is `p` with nothing changed but, perhaps, its state and its blocks'
/// states.
pub open spec fn same_layout(p: Piece, q: Piece) -> bool {
    &&& q.index == p.index
    &&& q.length == p.length
    &&& q.piece_hash == p.piece_hash
    &&& q.number_of_blocks == p.number_of_blocks
    &&& q.priority == p.priority
    &&& q.files == p.files
    &&& q.blocks@.len() == p.blocks@.len()
    &&& forall|j: int|
        0 <= j < p.blocks@.len() ==> (#[trigger] q.blocks@[j]).index == p.blocks@[j].index
            && q.blocks@[j].begin == p.blocks@[j].begin && q.blocks@[j].block_size
            == p.blocks@[j].block_size
}

/// `q` is `p` saved: the piece and each of its blocks are in the saved state.
pub open spec fn saved_from(p: Piece, q: Piece) -> bool {
    &&& same_layout(p, q)
    &&& q.piece_state is Saved
    &&& forall|j: int| 0 <= j < q.blocks@.len() ==> (#[trigger] q.blocks@[j]).block_state is Saved
}

/// Every piece among `0..n` is saved.
pub open spec fn all_saved(m: Map<usize, Piece>, n: nat) -> bool {
    forall|k: usize| #![trigger m[k]] k < n ==> m[k].piece_state is Saved
}

/// Appends the bytes of `s` to `v`.
fn append_bytes(v: &mut Vec<u8>, s: &[u8])
    ensures
        final(v)@ == old(v)@ + s@,
{
    let mut i: usize = 0;
    while i < s.len()
        invariant
            i <= s@.len(),
            v@ == old(v)@ + s@.take(i as int),
        decreases s@.len() - i,
    {
        v.push(s[i]);
        i = i + 1;
        assert(v@ =~= old(v)@ + s@.take(i as int));
    }
    assert(s@.take(s@.len() as int) =~= s@);
}

/// The bytes of the blocks, concatenated.
fn assemble(blocks: &Vec<Block>) -> (bytes: Vec<u8>)
    ensures
        bytes@ == concat_data(blocks@),
{
    let mut bytes: Vec<u8> = Vec::new();
    let mut j: usize = 0;
    while j < blocks.len()
        invariant
            j <= blocks@.len(),
            bytes@ == concat_data(blocks@.take(j as int)),
        decreases blocks@.len() - j,
    {
        proof {
            assert(blocks@.take(j as int + 1).drop_last() =~= blocks@.take(j as int));
        }
        match &blocks[j].block_state {
            BlockState::Downloaded { data } => {
                append_bytes(&mut bytes, bytes_as_slice(data));
            },
            _ => {},
        }
        j = j + 1;
    }
    assert(blocks@.take(blocks@.len() as int) =~= blocks@);
    bytes
}

impl PiecePool {
    /// Records a downloaded block. When it completes its piece, the piece
    /// takes the blocks' bytes in order as its downloaded bytes and they are
    /// checked against its hash.
    pub fn on_block_downloaded(&mut self, piece_index: usize, block_index: usize, bytes: Bytes) -> (r:
        BlockOutcome)
        requires
            old(self).wf(),
            old(self).pieces@.contains_key(piece_index),
            block_index < old(self).pieces@[piece_index].blocks@.len(),
        ensures
            final(self).wf(),
            final(self).number_of_pieces == old(self).number_of_pieces,
            final(self).piece_peer_map == old(self).piece_peer_map,
            ({
                let p = old(self).pieces@[piece_index];
                let q = final(self).pieces@[piece_index];
                &&& final(self).pieces@ == old(self).pieces@.insert(piece_index, q)
                &&& same_layout(p, q)
                &&& q.blocks@ == p.blocks@.update(
                    block_index as int,
                    Block { block_state: BlockState::Downloaded { data: bytes }, ..p.blocks@[block_index as int] },
                )
                &&& if all_downloaded(q.blocks@) {
                    &&& q.piece_state is Downloaded
                    &&& q.piece_state->piece_bytes@ == concat_data(q.blocks@)
                    &&& r == (if sha1_hash(concat_data(q.blocks@)) == p.piece_hash@ {
                        BlockOutcome::Complete
                    } else {
                        BlockOutcome::HashMismatch
                    })
                } else {
                    &&& q.piece_state == p.piece_state
                    &&& r == BlockOutcome::Pending
                }
            }),
    {
        let mut piece = self.pieces.remove(&piece_index).unwrap();
        let ghost p = piece;
        let old_block = &piece.blocks[block_index];
        let block = Block {
            index: old_block.index,
            begin: old_block.begin,
            block_size: old_block.block_size,
            block_state: BlockState::Downloaded { data: bytes },
        };
        piece.blocks.set(block_index, block);
        let mut complete = true;
        let mut j: usize = 0;
        while j < piece.blocks.len()
            invariant
                j <= piece.blocks@.len(),
                complete <==> forall|k: int|
                    0 <= k < j ==> (#[trigger] piece.blocks@[k]).block_state is Downloaded,
            decreases piece.blocks@.len() - j,
        {
            match &piece.blocks[j].block_state {
                BlockState::Downloaded { .. } => {},
                _ => {
                    complete = false;
                },
            }
            j = j + 1;
        }
        let outcome = if complete {
            let piece_bytes = assemble(&piece.blocks);
            piece.set_state(PieceState::Downloaded { piece_bytes });
            match piece.verify() {
                Some(true) => BlockOutcome::Complete,
                _ => BlockOutcome::HashMismatch,
            }
        } else {
            BlockOutcome::Pending
        };
        self.pieces.insert(piece_index, piece);
        assert(self.pieces@ =~= old(self).pieces@.insert(piece_index, self.pieces@[piece_index]));
        assert(piece.blocks@ =~= p.blocks@.update(
            block_index as int,
            Block { block_state: BlockState::Downloaded { data: bytes }, ..p.blocks@[block_index as int] },
        ));
        outcome
    }

    /// The task that fetches a block again after it failed: the block with
    /// that index in the piece with that index.
    pub fn requeue_block(&self, piece_index: usize, block_index: usize) -> (t: DownloadBlock)
        requires
            self.wf(),
            self.pieces@.contains_key(piece_index),
            block_index < self.pieces@[piece_index].blocks@.len(),
        ensures
            t == (DownloadBlock {
                piece_index,
                block_index,
                begin: self.pieces@[piece_index].blocks@[block_index as int].begin,
                length: self.pieces@[piece_index].blocks@[block_index as int].block_size,
            }),
    {
        let piece = self.pieces.get(&piece_index).unwrap();
        let mut j: usize = 0;
        while j < piece.blocks.len()
            invariant
                j <= block_index,
                block_index < piece.blocks@.len(),
                piece_wf(*piece),
                *piece == self.pieces@[piece_index],
            ensures
                j == block_index,
                *piece == self.pieces@[piece_index],
            decreases piece.blocks@.len() - j,
        {
            if piece.blocks[j].index == block_index {
                break;
            }
            j = j + 1;
        }
        let block = &piece.blocks[j];
        DownloadBlock { piece_index, block_index, begin: block.begin, length: block.block_size }
    }

    /// Whether every piece is saved; always known.
    pub fn all_pieces_downloaded(&self) -> (r: Option<bool>)
        requires
            self.wf(),
        ensures
            r == Some(all_saved(self.pieces@, self.number_of_pieces as nat)),
    {
        let n = self.number_of_pieces;
        let mut i: usize = 0;
        while i < n
            invariant
                self.wf(),
                n == self.number_of_pieces,
                i <= n,
                all_saved(self.pieces@, i as nat),
            decreases n - i,
        {
            assert(self.pieces@.contains_key(i));
            let p = self.pieces.get(&i).unwrap();
            match &p.piece_state {
                PieceState::Saved => {},
                _ => {
                    return Some(false);
                },
            }
            i = i + 1;
        }
        Some(true)
    }

    /// After a piece was written to its files: marks it saved, hands out the
    /// blocks of up to five more pieces as `queue_n_tasks` does, and tells
    /// whether every piece is now saved.
    pub fn on_piece_saved(&mut self, index: usize) -> (r: (Vec<DownloadBlock>, bool))
        requires
            old(self).wf(),
            old(self).pieces@.contains_key(index),
        ensures
            final(self).wf(),
            saved_effect(*old(self), *final(self), index, r.0@, r.1),
            r.1 ==> r.0@.len() == 0,
    {
        let mut piece = self.pieces.remove(&index).unwrap();
        piece.set_saved();
        let ghost q = piece;
        self.pieces.insert(index, piece);
        assert(self.pieces@ =~= old(self).pieces@.insert(index, q));
        let ghost m1 = self.pieces@;
        let (_queued, tasks) = self.queue_n_tasks(5);
        let finished = self.all_pieces_downloaded();
        assert(saved_from(old(self).pieces@[index], q));
        assert(self.pieces@ == queue_rounds(m1, old(self).number_of_pieces as nat, 5).0);
        proof {
            lemma_queue_never_repeats_a_block(m1, old(self).number_of_pieces as nat, 5);
            if finished.unwrap() && tasks@.len() > 0 {
                let k = tasks@[0].piece_index;
                assert(self.pieces@.contains_key(k));
                assert(k < self.number_of_pieces);
                assert(self.pieces@[k].piece_state is Saved);
            }
        }
        (tasks, finished.unwrap())
    }
}

/// The names of the peers in a list.
pub open spec fn names(v: Seq<String>) -> Seq<Seq<char>> {
    v.map_values(|s: String| s@)
}

/// The peers listed for a piece once `peer` is added: the list is started
/// with it, or it is appended unless already there.
pub open spec fn peers_after_add(m: Map<usize, Vec<String>>, piece_index: usize, peer: Seq<char>) -> Seq<
    Seq<char>,
> {
    if m.contains_key(piece_index) {
        if names(m[piece_index]@).contains(peer) {
            names(m[piece_index]@)
        } else {
            names(m[piece_index]@).push(peer)
        }
    } else {
        seq![peer]
    }
}

impl PiecePool {
    /// Records that a peer holds a piece; a peer is listed once per piece.
    pub fn add_peer_piece(&mut self, peer_id: &str, piece_index: usize)
        requires
            old(self).wf(),
        ensures
            final(self).wf(),
            final(self).pieces == old(self).pieces,
            final(self).number_of_pieces == old(self).number_of_pieces,
            final(self).piece_peer_map@.dom() == old(self).piece_peer_map@.dom().insert(piece_index),
            names(final(self).piece_peer_map@[piece_index]@) == peers_after_add(
                old(self).piece_peer_map@,
                piece_index,
                peer_id@,
            ),
            forall|k: usize|
                k != piece_index && #[trigger] old(self).piece_peer_map@.contains_key(k)
                    ==> final(self).piece_peer_map@[k] == old(self).piece_peer_map@[k],
    {
        let name = peer_id.to_owned();
        let mut list = match self.piece_peer_map.remove(&piece_index) {
            Some(l) => l,
            None => Vec::new(),
        };
        let ghost old_list = list@;
        let mut found = false;
        let mut k: usize = 0;
        while k < list.len()
            invariant
                k <= list@.len(),
                list@ == old_list,
                found <==> names(list@).take(k as int).contains(name@),
            decreases list@.len() - k,
        {
            proof {
                assert(names(list@).take(k as int + 1) =~= names(list@).take(k as int).push(
                    list@[k as int]@,
                ));
                vstd::seq_lib::lemma_seq_contains_after_push(
                    names(list@).take(k as int),
                    list@[k as int]@,
                    name@,
                );
            }
            if list[k] == name {
                found = true;
            }
            k = k + 1;
        }
        assert(names(list@).take(list@.len() as int) =~= names(list@));
        if !found {
            proof {
                assert forall|a: int, b: int|
                    0 <= a < b < list@.len() + 1 implies (#[trigger] list@.push(name)[a])@
                    != (#[trigger] list@.push(name)[b])@ by {
                    if b == list@.len() {
                        assert(names(list@)[a] == list@[a]@);
                    } else {
                        assert(old(self).piece_peer_map@.contains_key(piece_index));
                    }
                }
            }
            list.push(name);
            assert(names(list@) =~= names(old_list).push(name@));
        }
        self.piece_peer_map.insert(piece_index, list);
        assert(self.piece_peer_map@.dom() =~= old(self).piece_peer_map@.dom().insert(piece_index));
        proof {
            if !old(self).piece_peer_map@.contains_key(piece_index) {
                assert(names(old_list) =~= Seq::<Seq<char>>::empty());
                assert(names(self.piece_peer_map@[piece_index]@) =~= seq![name@]);
            }
        }
    }

    /// The peers known to hold a piece, if any were recorded.
    pub fn get_peers_for_piece(&self, piece_index: usize) -> (r: Option<&Vec<String>>)
        ensures
            self.piece_peer_map@.contains_key(piece_index) ==> r == Some(
                &self.piece_peer_map@[piece_index],
            ),
            !self.piece_peer_map@.contains_key(piece_index) ==> r is None,
    {
        self.piece_peer_map.get(&piece_index)
    }

    /// The piece with this index, if there is one.
    pub fn get_piece(&self, index: usize) -> (r: Option<&Piece>)
        ensures
            self.pieces@.contains_key(index) ==> r == Some(&self.pieces@[index]),
            !self.pieces@.contains_key(index) ==> r is None,
    {
        self.pieces.get(&index)
    }

    /// A missing piece, if any is left: the first by index.
    pub fn get_next_piece(&self) -> (r: Option<&Piece>)
        requires
            self.wf(),
        ensures
            match r {
                Some(p) => exists|k: usize|
                    #![trigger self.pieces@[k]]
                    k < self.number_of_pieces && self.pieces@[k] == *p && p.piece_state is Missing
                        && none_missing(self.pieces@, k as nat),
                None => none_missing(self.pieces@, self.number_of_pieces as nat),
            },
    {
        let n = self.number_of_pieces;
        let mut i: usize = 0;
        while i < n
            invariant
                self.wf(),
                n == self.number_of_pieces,
                i <= n,
                none_missing(self.pieces@, i as nat),
            decreases n - i,
        {
            assert(self.pieces@.contains_key(i));
            let p = self.pieces.get(&i).unwrap();
            match &p.piece_state {
                PieceState::Missing => {
                    return Some(p);
                },
                _ => {},
            }
            i = i + 1;
        }
        None
    }
}

/// `j` is the first missing block.
pub open spec fn first_missing_block(blocks: Seq<Block>, j: int) -> bool {
    &&& 0 <= j < blocks.len()
    &&& blocks[j].block_state is Missing
    &&& forall|k: int| 0 <= k < j ==> !((#[trigger] blocks[k]).block_state is Missing)
}

impl PiecePool {
    /// Starts the next piece as `get_next_piece_mut` does, and in it the
    /// first missing block, which is marked as downloading and returned.
    /// Some piece must be missing.
    pub fn get_next_block(&mut self) -> (r: Option<&Block>)
        requires
            old(self).wf(),
            !none_missing(old(self).pieces@, old(self).number_of_pieces as nat),
        ensures
            final(self).wf(),
            final(self).number_of_pieces == old(self).number_of_pieces,
            final(self).piece_peer_map == old(self).piece_peer_map,
            ({
                let b = best_missing(old(self).pieces@, old(self).number_of_pieces as nat).unwrap();
                let p = downloading(old(self).pieces@[b]);
                let q = final(self).pieces@[b];
                &&& is_next_choice(old(self).pieces@, old(self).number_of_pieces as nat, b)
                &&& final(self).pieces@ == old(self).pieces@.insert(b, q)
                &&& same_layout(p, q)
                &&& q.piece_state is Downloading
                &&& match r {
                    Some(blk) => exists|j: int|
                        #![trigger q.blocks@[j]]
                        first_missing_block(p.blocks@, j) && q.blocks@ == p.blocks@.update(
                            j,
                            Block { block_state: BlockState::Downloading, ..p.blocks@[j] },
                        ) && *blk == q.blocks@[j],
                    None => q == p && forall|j: int|
                        0 <= j < p.blocks@.len() ==> !((#[trigger] p.blocks@[j]).block_state is Missing),
                }
            }),
    {
        proof {
            lemma_best_missing(old(self).pieces@, old(self).number_of_pieces as nat);
        }
        let b = self.get_next_piece_mut().unwrap();
        let ghost mid = self.pieces@;
        let mut piece = self.pieces.remove(&b).unwrap();
        let ghost p = piece;
        let mut j: usize = 0;
        let mut found = false;
        while j < piece.blocks.len()
            invariant_except_break
                !found,
            invariant
                j <= piece.blocks@.len(),
                piece == p,
                forall|k: int| 0 <= k < j ==> !((#[trigger] p.blocks@[k]).block_state is Missing),
            ensures
                found ==> first_missing_block(p.blocks@, j as int),
                !found ==> j == p.blocks@.len() && piece == p,
            decreases piece.blocks@.len() - j,
        {
            let missing = match &piece.blocks[j].block_state {
                BlockState::Missing => true,
                _ => false,
            };
            if missing {
                found = true;
                break;
            }
            j = j + 1;
        }
        if found {
            let old_block = &piece.blocks[j];
            let block = Block {
                index: old_block.index,
                begin: old_block.begin,
                block_size: old_block.block_size,
                block_state: BlockState::Downloading,
            };
            piece.blocks.set(j, block);
            assert(piece.blocks@ =~= p.blocks@.update(
                j as int,
                Block { block_state: BlockState::Downloading, ..p.blocks@[j as int] },
            ));
        }
        self.pieces.insert(b, piece);
        assert(self.pieces@ =~= old(self).pieces@.insert(b, self.pieces@[b]));
        if found {
            let stored = self.pieces.get(&b).unwrap();
            Some(&stored.blocks[j])
        } else {
            None
        }
    }
}

/// What the pool's loop is told.
pub enum PoolEvent {
    /// The download begins.
    Start,
    /// A peer reported on a block.
    Report(CompletedTask),
    /// The piece with this index was written to its files.
    Saved(usize),
    /// Writing a piece failed.
    SaveFailed,
}

/// What the pool's loop does next.
pub enum PoolCommand {
    /// Send these block requests to the peers, then wait for a report.
    Send(Vec<DownloadBlock>),
    /// Write the piece with this index to its files and tell how it went.
    Save(usize),
    /// Every piece is saved: close the request channel and stop.
    Close,
    /// Stop without closing the request channel.
    Stop,
    /// Wait for the next report.
    Wait,
}

/// Where the pool's loop stands.
#[derive(Debug, Clone, Copy, PartialEq, Eq, Structural)]
pub enum RunState {
    Running,
    /// The request channel was closed, every piece saved.
    Closed,
    /// A save failed.
    Stopped,
}

/// The piece pool with the state of its loop.
pub struct PoolDriver {
    pub pool: PiecePool,
    pub state: RunState,
}

impl PoolDriver {
    /// A running loop over a pool.
    pub fn new(pool: PiecePool) -> (d: PoolDriver)
        ensures
            d.pool == pool,
            d.state == RunState::Running,
    {
        PoolDriver { pool, state: RunState::Running }
    }

    /// The loop's next move. The start sends the requests of up to five
    /// pieces; a report is handled as `handle_completed_task` says; a saved
    /// piece is marked and up to five more pieces are started, and once
    /// every piece is saved the loop closes the request channel, with
    /// nothing left to send; a failed save stops the loop. A loop that has
    /// closed or stopped does nothing more.
    pub fn step(&mut self, event: PoolEvent) -> (cmd: PoolCommand)
        requires
            old(self).pool.wf(),
            old(self).state == RunState::Running ==> match event {
                PoolEvent::Report(task) => report_valid(old(self).pool, task),
                PoolEvent::Saved(index) => old(self).pool.pieces@.contains_key(index),
                _ => true,
            },
        ensures
            final(self).pool.wf(),
            old(self).state != RunState::Running ==> cmd is Stop && *final(self) == *old(self),
            old(self).state == RunState::Running ==> match event {
                PoolEvent::Start => {
                    let q = queue_rounds(old(self).pool.pieces@, old(self).pool.number_of_pieces as nat, 5);
                    &&& final(self).state == RunState::Running
                    &&& final(self).pool.pieces@ == q.0
                    &&& final(self).pool.number_of_pieces == old(self).pool.number_of_pieces
                    &&& final(self).pool.piece_peer_map == old(self).pool.piece_peer_map
                    &&& cmd matches PoolCommand::Send(t) && t@ == q.1
                },
                PoolEvent::Report(task) => {
                    &&& final(self).state == RunState::Running
                    &&& exists|s: PoolStep|
                        #![trigger reported(old(self).pool, final(self).pool, task, s)]
                        reported(old(self).pool, final(self).pool, task, s) && match s {
                            PoolStep::Wait => cmd is Wait,
                            PoolStep::SavePiece(i) => cmd == PoolCommand::Save(i),
                            PoolStep::Requeue(b) => cmd matches PoolCommand::Send(t) && t@ == seq![b],
                        }
                },
                PoolEvent::Saved(index) => exists|t: Seq<DownloadBlock>, done: bool|
                    #![trigger saved_effect(old(self).pool, final(self).pool, index, t, done)]
                    saved_effect(old(self).pool, final(self).pool, index, t, done) && if done {
                        cmd is Close && final(self).state == RunState::Closed
                    } else {
                        (cmd matches PoolCommand::Send(u) && u@ == t) && final(self).state
                            == RunState::Running
                    },
                PoolEvent::SaveFailed => cmd is Stop && final(self).state == RunState::Stopped
                    && final(self).pool == old(self).pool,
            },
            cmd is Close ==> final(self).state == RunState::Closed && all_saved(
                final(self).pool.pieces@,
                final(self).pool.number_of_pieces as nat,
            ),
            final(self).state == RunState::Closed ==> cmd is Close || old(self).state
                == RunState::Closed,
    {
        if self.state != RunState::Running {
            return PoolCommand::Stop;
        }
        match event {
            PoolEvent::Start => {
                let (_queued, tasks) = self.pool.queue_n_tasks(5);
                PoolCommand::Send(tasks)
            },
            PoolEvent::Report(task) => {
                let step = self.pool.handle_completed_task(task);
                let cmd = match step {
                    PoolStep::Wait => PoolCommand::Wait,
                    PoolStep::SavePiece(i) => PoolCommand::Save(i),
                    PoolStep::Requeue(b) => {
                        let mut t: Vec<DownloadBlock> = Vec::new();
                        t.push(b);
                        PoolCommand::Send(t)
                    },
                };
                assert(reported(old(self).pool, self.pool, task, step));
                cmd
            },
            PoolEvent::Saved(index) => {
                let (tasks, finished) = self.pool.on_piece_saved(index);
                assert(saved_effect(old(self).pool, self.pool, index, tasks@, finished));
                if finished {
                    self.state = RunState::Closed;
                    PoolCommand::Close
                } else {
                    PoolCommand::Send(tasks)
                }
            },
            PoolEvent::SaveFailed => {
                self.state = RunState::Stopped;
                PoolCommand::Stop
            },
        }
    }
}

/// Queueing only starts pieces: after any number of rounds every piece is
/// as it was, or it was missing and is now being downloaded; and every task
/// handed out is for a piece that was missing. The pieces are those of a
/// consistent pool: keyed `0..count`, each under its own index.
pub proof fn lemma_queue_starts_only_missing(m: Map<usize, Piece>, count: nat, k: nat)
    requires
        count <= usize::MAX + 1,
        forall|i: usize| i < count ==> #[trigger] m.contains_key(i),
        forall|i: usize| #[trigger] m.contains_key(i) ==> m[i].index == i,
    ensures
        queue_rounds(m, count, k).0.dom() == m.dom(),
        forall|j: usize| #![trigger queue_rounds(m, count, k).0[j]]
            m.contains_key(j) ==> queue_rounds(m, count, k).0[j] == m[j] || (m[j].piece_state is Missing
                && queue_rounds(m, count, k).0[j] == downloading(m[j])),
        forall|t: int|
            0 <= t < queue_rounds(m, count, k).1.len() ==> m[(#[trigger] queue_rounds(
                m,
                count,
                k,
            ).1[t]).piece_index].piece_state is Missing,
    decreases k,
{
    if k > 0 {
        lemma_queue_starts_only_missing(m, count, (k - 1) as nat);
        let (m1, t1, exhausted) = queue_rounds(m, count, (k - 1) as nat);
        if !exhausted {
            lemma_best_missing(m1, count);
            match best_missing(m1, count) {
                None => {},
                Some(b) => {
                    assert(m.contains_key(b));
                    assert(m1[b] == m[b] || m1[b] == downloading(m[b]));
                    assert(m1[b] == m[b]);
                    let m2 = m1.insert(b, downloading(m1[b]));
                    assert(m2.dom() =~= m.dom());
                    assert forall|j: usize| #![trigger m2[j]]
                        m.contains_key(j) implies m2[j] == m[j] || (m[j].piece_state is Missing
                            && m2[j] == downloading(m[j])) by {
                        if j != b {
                            assert(m1[j] == m[j] || (m[j].piece_state is Missing && m1[j]
                                == downloading(m[j])));
                        }
                    }
                    let tb = tasks_of(m1[b]);
                    assert forall|t: int| 0 <= t < (t1 + tb).len() implies m[(#[trigger] (t1
                        + tb)[t]).piece_index].piece_state is Missing by {
                        if t >= t1.len() {
                            assert((t1 + tb)[t] == tb[t - t1.len()]);
                            assert(tb[t - t1.len()].piece_index == m1[b].index);
                        } else {
                            assert((t1 + tb)[t] == t1[t]);
                        }
                    }
                },
            }
        }
    }
}

/// Queueing never asks for a block twice: the tasks name distinct blocks,
/// and each piece they name is being downloaded afterwards, so that a later
/// queueing, which only starts missing pieces, cannot name it again.
pub proof fn lemma_queue_never_repeats_a_block(m: Map<usize, Piece>, count: nat, k: nat)
    requires
        count <= usize::MAX + 1,
        forall|i: usize| i < count ==> #[trigger] m.contains_key(i),
        forall|i: usize| #[trigger] m.contains_key(i) ==> m[i].index == i && piece_wf(m[i]),
    ensures
        forall|a: int|
            0 <= a < queue_rounds(m, count, k).1.len() ==> queue_rounds(m, count, k).0.contains_key(
                (#[trigger] queue_rounds(m, count, k).1[a]).piece_index,
            ) && queue_rounds(m, count, k).0[queue_rounds(
                m,
                count,
                k,
            ).1[a].piece_index].piece_state is Downloading,
        forall|a: int, b: int|
            0 <= a < b < queue_rounds(m, count, k).1.len() ==> ((#[trigger] queue_rounds(
                m,
                count,
                k,
            ).1[a]).piece_index, queue_rounds(m, count, k).1[a].block_index) != ((
            #[trigger] queue_rounds(m, count, k).1[b]).piece_index, queue_rounds(
                m,
                count,
                k,
            ).1[b].block_index),
    decreases k,
{
    if k > 0 {
        lemma_queue_never_repeats_a_block(m, count, (k - 1) as nat);
        lemma_queue_starts_only_missing(m, count, (k - 1) as nat);
        let (m1, t1, exhausted) = queue_rounds(m, count, (k - 1) as nat);
        if !exhausted {
            lemma_best_missing(m1, count);
            match best_missing(m1, count) {
                None => {},
                Some(b) => {
                    assert(m.contains_key(b));
                    assert(m1[b] == m[b] || m1[b] == downloading(m[b]));
                    let p = m1[b];
                    assert(p.index == b);
                    assert(piece_wf(p));
                    let m2 = m1.insert(b, downloading(p));
                    let tb = tasks_of(p);
                    let t = t1 + tb;
                    assert forall|a: int| 0 <= a < t.len() implies m2.contains_key(
                        (#[trigger] t[a]).piece_index,
                    ) && m2[t[a].piece_index].piece_state is Downloading by {
                        if a >= t1.len() {
                            assert(t[a] == tb[a - t1.len()]);
                        } else {
                            assert(t[a] == t1[a]);
                            assert(m1[t1[a].piece_index].piece_state is Downloading);
                            assert(t1[a].piece_index != b);
                        }
                    }
                    assert forall|a: int, c: int| 0 <= a < c < t.len() implies ((#[trigger] t[
                        a]).piece_index, t[a].block_index) != ((#[trigger] t[c]).piece_index,
                        t[c].block_index) by {
                        if c < t1.len() {
                            assert(t[a] == t1[a] && t[c] == t1[c]);
                        } else if a < t1.len() {
                            assert(t[a] == t1[a] && t[c] == tb[c - t1.len()]);
                            assert(m1[t1[a].piece_index].piece_state is Downloading);
                        } else {
                            assert(t[a] == tb[a - t1.len()] && t[c] == tb[c - t1.len()]);
                            assert(p.blocks@[a - t1.len()].index == a - t1.len());
                            assert(p.blocks@[c - t1.len()].index == c - t1.len());
                        }
                    }
                },
            }
        }
    }
}

/// A peer added to a piece is listed for it, and adding it again changes
/// nothing.
pub proof fn lemma_add_peer_lists_once(m: Map<usize, Vec<String>>, piece_index: usize, peer: Seq<char>)
    ensures
        peers_after_add(m, piece_index, peer).contains(peer),
        m.contains_key(piece_index) && names(m[piece_index]@).contains(peer) ==> peers_after_add(
            m,
            piece_index,
            peer,
        ) == names(m[piece_index]@),
{
    if m.contains_key(piece_index) {
        if !names(m[piece_index]@).contains(peer) {
            assert(names(m[piece_index]@).push(peer)[names(m[piece_index]@).len() as int] == peer);
        }
    } else {
        assert(seq![peer][0] == peer);
    }
}

/// The pieces cover the torrent: all but the last have the piece length and
/// the last holds the remainder, so the lengths add up to the size. This
/// fails when the size is a multiple of the piece length, where the last
/// piece is laid out with length zero; such sizes are left out.
pub proof fn lemma_pieces_cover_size(total: int, piece_length: int)
    requires
        piece_length > 0,
        total > 0,
        total % piece_length != 0,
    ensures
        ({
            let n = pieces_for(total, piece_length);
            &&& n >= 1
            &&& (n - 1) * piece_length + piece_len_at(total, piece_length, n, n - 1) == total
            &&& forall|i: int| 0 <= i < n - 1 ==> piece_len_at(total, piece_length, n, i) == piece_length
        }),
{
    let n = pieces_for(total, piece_length);
    assert(n == total / piece_length + 1) by (nonlinear_arith)
        requires
            n == (total + piece_length - 1) / piece_length,
            piece_length > 0,
            total % piece_length != 0,
            total > 0,
    ;
    assert(total == (total / piece_length) * piece_length + total % piece_length) by (nonlinear_arith)
        requires
            piece_length > 0,
    ;
    assert((n - 1) * piece_length == (total / piece_length) * piece_length);
    assert(total / piece_length >= 0) by (nonlinear_arith)
        requires
            piece_length > 0,
            total > 0,
    ;
}

/// The blocks of a piece cover it: every block but the last starts before
/// its end, and the blocks reach at least to it.
pub proof fn lemma_blocks_cover_piece(len: int)
    requires
        len > 0,
    ensures
        (blocks_in(len) - 1) * 16384 < len <= blocks_in(len) * 16384,
{
}

/// A peer's report names a piece of the pool and one of its blocks.
pub open spec fn report_valid(pool: PiecePool, task: CompletedTask) -> bool {
    match task {
        CompletedTask::DownloadedBlock { piece_index, block_index, .. } => pool.pieces@.contains_key(
            piece_index,
        ) && block_index < pool.pieces@[piece_index].blocks@.len(),
        CompletedTask::FailedBlock { piece_index, block_index, .. } => pool.pieces@.contains_key(
            piece_index,
        ) && block_index < pool.pieces@[piece_index].blocks@.len(),
    }
}

/// What a report does to the pool, and what the pool asks for: a
/// downloaded block is recorded, and a piece it completes with the right
/// hash is to be saved; a failed block's request is sent again.
pub open spec fn reported(old: PiecePool, new: PiecePool, task: CompletedTask, step: PoolStep) -> bool {
    &&& new.number_of_pieces == old.number_of_pieces
    &&& new.piece_peer_map == old.piece_peer_map
    &&& match task {
        CompletedTask::DownloadedBlock { piece_index, block_index, bytes, .. } => {
            let p = old.pieces@[piece_index];
            let q = new.pieces@[piece_index];
            &&& new.pieces@ == old.pieces@.insert(piece_index, q)
            &&& same_layout(p, q)
            &&& q.blocks@ == p.blocks@.update(
                block_index as int,
                Block { block_state: BlockState::Downloaded { data: bytes }, ..p.blocks@[block_index as int] },
            )
            &&& if all_downloaded(q.blocks@) {
                &&& q.piece_state is Downloaded
                &&& q.piece_state->piece_bytes@ == concat_data(q.blocks@)
                &&& step == (if sha1_hash(concat_data(q.blocks@)) == p.piece_hash@ {
                    PoolStep::SavePiece(piece_index)
                } else {
                    PoolStep::Wait
                })
            } else {
                &&& q.piece_state == p.piece_state
                &&& step == PoolStep::Wait
            }
        },
        CompletedTask::FailedBlock { piece_index, block_index, .. } => {
            let b = old.pieces@[piece_index].blocks@[block_index as int];
            &&& new.pieces@ == old.pieces@
            &&& step == PoolStep::Requeue(
                DownloadBlock { piece_index, block_index, begin: b.begin, length: b.block_size },
            )
        },
    }
}

/// What reporting piece `index` saved does: the piece and its blocks are
/// marked saved, up to five more pieces are started as `queue_n_tasks`
/// starts them (their requests are `tasks`), and `finished` tells whether
/// every piece is now saved.
pub open spec fn saved_effect(
    old: PiecePool,
    new: PiecePool,
    index: usize,
    tasks: Seq<DownloadBlock>,
    finished: bool,
) -> bool {
    &&& new.number_of_pieces == old.number_of_pieces
    &&& new.piece_peer_map == old.piece_peer_map
    &&& exists|q: Piece| #![trigger saved_from(old.pieces@[index], q)]
        {
            let q_rounds = queue_rounds(old.pieces@.insert(index, q), old.number_of_pieces as nat, 5);
            &&& saved_from(old.pieces@[index], q)
            &&& new.pieces@ == q_rounds.0
            &&& tasks == q_rounds.1
        }
    &&& finished == all_saved(new.pieces@, new.number_of_pieces as nat)
}

/// What the pool asks for after a peer's report.
#[derive(Debug, Clone, Copy, PartialEq, Eq, Structural)]
pub enum PoolStep {
    /// Nothing to do but wait for the next report.
    Wait,
    /// The piece with this index is complete and checked: write it to its
    /// files, then report it saved.
    SavePiece(usize),
    /// Send the block request out once more.
    Requeue(DownloadBlock),
}

impl PiecePool {
    /// Takes in a peer's report: a downloaded block is recorded, and a piece
    /// it completes with the right hash is to be saved; a failed block is
    /// handed out again. The report must name a piece and block of the pool.
    pub fn handle_completed_task(&mut self, task: CompletedTask) -> (step: PoolStep)
        requires
            old(self).wf(),
            report_valid(*old(self), task),
        ensures
            final(self).wf(),
            reported(*old(self), *final(self), task, step),
    {
        match task {
            CompletedTask::DownloadedBlock { piece_index, block_index, bytes, .. } => {
                match self.on_block_downloaded(piece_index, block_index, bytes) {
                    BlockOutcome::Complete => PoolStep::SavePiece(piece_index),
                    _ => PoolStep::Wait,
                }
            },
            CompletedTask::FailedBlock { piece_index, block_index, .. } => {
                PoolStep::Requeue(self.requeue_block(piece_index, block_index))
            },
        }
    }
}

} // verus!

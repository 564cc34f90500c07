//! Pieces and their blocks: download states, hash checking and where a
//! finished piece is written.
use vstd::prelude::*;
use bytes::Bytes;
use crate::digest::{sha1_digest, sha1_hash};
use crate::terror::torrent::{FileInfo, FileInfoModel};



pub mod piece_pool;

verus! {

#[derive(PartialEq, Eq, Structural, PartialOrd, Ord, Clone, Copy, Debug)]
pub enum Priority {
    High,
    Normal,
    Low,
    Skip,
}

impl Priority {
    /// The position of a priority in the order High, Normal, Low, Skip.
    pub open spec fn spec_rank(self) -> u8 {
        match self {
            Priority::High => 0,
            Priority::Normal => 1,
            Priority::Low => 2,
            Priority::Skip => 3,
        }
    }

    pub fn rank(&self) -> (r: u8)
        ensures
            r == self.spec_rank(),
    {
        match self {
            Priority::High => 0,
            Priority::Normal => 1,
            Priority::Low => 2,
            Priority::Skip => 3,
        }
    }
}

impl Default for Priority {
    fn default() -> (p: Self)
        ensures
            p == Priority::Normal,
    {
        Priority::Normal
    }
}

pub enum BlockState {
    Downloaded { data: Bytes },
    Downloading,
    Missing,
    Saved,
}

pub enum PieceState {
    Missing,
    Downloading,
    Downloaded { piece_bytes: Vec<u8> },
    Saved,
}

pub struct Block {
    pub index: usize,
    pub begin: usize,
    pub block_size: usize,
    pub block_state: BlockState,
}

pub struct Piece {
    pub index: usize,
    pub length: usize,
    pub piece_hash: Vec<u8>,
    pub piece_state: PieceState,
    pub blocks: Vec<Block>,
    pub number_of_blocks: usize,
    pub priority: Priority,
    pub files: Vec<FileInfo>,
}

/// One write of a finished piece: which file, where in it, and which bytes.
pub struct FileWrite {
    pub path: String,
    pub position: usize,
    pub bytes: Vec<u8>,
}

/// The mathematical model of a write.
pub struct FileWriteModel {
    pub path: Seq<char>,
    pub position: int,
    pub bytes: Seq<u8>,
}

impl View for FileWrite {
    type V = FileWriteModel;

    open spec fn view(&self) -> FileWriteModel {
        FileWriteModel { path: self.path@, position: self.position as int, bytes: self.bytes@ }
    }
}

/// Why a piece cannot be saved.
#[derive(PartialEq, Eq, Structural, Debug, Clone, Copy)]
pub enum PieceError {
    NotDownloaded,
}

/// Whether a computed digest is the expected hash, byte for byte.
pub fn digest_matches(digest: &[u8; 20], expected: &Vec<u8>) -> (r: bool)
    ensures
        r == (digest@ == expected@),
{
    assert(digest@.len() == 20);
    if expected.len() != 20 {
        return false;
    }
    let mut i: usize = 0;
    while i < 20
        invariant
            i <= 20,
            expected@.len() == 20,
            digest@.len() == 20,
            forall|k: int| 0 <= k < i ==> digest@[k] == expected@[k],
        decreases 20 - i,
    {
        if digest[i] != expected[i] {
            assert(digest@[i as int] != expected@[i as int]);
            return false;
        }
        i = i + 1;
    }
    assert(digest@ =~= expected@);
    true
}

impl Block {
    pub fn set_state(&mut self, state: BlockState)
        ensures
            final(self).block_state == state,
            final(self).index == old(self).index,
            final(self).begin == old(self).begin,
            final(self).block_size == old(self).block_size,
    {
        self.block_state = state;
    }
}

/// The starting piece, ending piece and offset of a file record, each zero
/// when absent.
pub open spec fn start_of(f: FileInfoModel) -> int {
    match f.start_piece {
        Some(s) => s as int,
        None => 0,
    }
}

pub open spec fn end_of(f: FileInfoModel) -> int {
    match f.end_piece {
        Some(e) => e as int,
        None => 0,
    }
}

pub open spec fn offset_of(f: FileInfoModel) -> int {
    match f.offset {
        Some(o) => o as int,
        None => 0,
    }
}

impl Piece {
    /// The size a piece is assumed to have when its position in a file is
    /// worked out.
    pub const PIECE_SIZE: u32 = 32768;

    /// The number of bytes in a block.
    pub const BLOCK_SIZE: usize = 16384;

    pub fn set_state(&mut self, state: PieceState)
        ensures
            final(self).piece_state == state,
            final(self).index == old(self).index,
            final(self).length == old(self).length,
            final(self).piece_hash == old(self).piece_hash,
            final(self).blocks == old(self).blocks,
            final(self).number_of_blocks == old(self).number_of_blocks,
            final(self).priority == old(self).priority,
            final(self).files == old(self).files,
    {
        self.piece_state = state;
    }

    pub fn set_priority(&mut self, priority: Priority)
        ensures
            final(self).priority == priority,
            final(self).index == old(self).index,
            final(self).length == old(self).length,
            final(self).piece_hash == old(self).piece_hash,
            final(self).piece_state == old(self).piece_state,
            final(self).blocks == old(self).blocks,
            final(self).number_of_blocks == old(self).number_of_blocks,
            final(self).files == old(self).files,
    {
        self.priority = priority;
    }

    /// Whether the downloaded bytes have the piece's hash; `None` while the
    /// piece is not downloaded.
    pub fn verify(&self) -> (res: Option<bool>)
        ensures
            match self.piece_state {
                PieceState::Downloaded { piece_bytes } => res == Some(
                    sha1_hash(piece_bytes@) == self.piece_hash@,
                ),
                _ => res is None,
            },
    {
        match &self.piece_state {
            PieceState::Downloaded { piece_bytes } => {
                let digest = sha1_digest(piece_bytes.as_slice());
                Some(digest_matches(&digest, &self.piece_hash))
            },
            _ => None,
        }
    }

    /// Marks the piece and all its blocks as saved.
    pub fn set_saved(&mut self)
        ensures
            final(self).piece_state is Saved,
            final(self).blocks@.len() == old(self).blocks@.len(),
            forall|j: int|
                0 <= j < final(self).blocks@.len() ==> (#[trigger] final(self).blocks@[j]).block_state
                    is Saved && final(self).blocks@[j].index == old(self).blocks@[j].index
                    && final(self).blocks@[j].begin == old(self).blocks@[j].begin
                    && final(self).blocks@[j].block_size == old(self).blocks@[j].block_size,
            final(self).index == old(self).index,
            final(self).length == old(self).length,
            final(self).piece_hash == old(self).piece_hash,
            final(self).number_of_blocks == old(self).number_of_blocks,
            final(self).priority == old(self).priority,
            final(self).files == old(self).files,
    {
        self.piece_state = PieceState::Saved;
        let n = self.blocks.len();
        let mut j: usize = 0;
        while j < n
            invariant
                j <= n,
                n == self.blocks@.len(),
                self.blocks@.len() == old(self).blocks@.len(),
                self.piece_state is Saved,
                self.index == old(self).index,
                self.length == old(self).length,
                self.piece_hash == old(self).piece_hash,
                self.number_of_blocks == old(self).number_of_blocks,
                self.priority == old(self).priority,
                self.files == old(self).files,
                forall|k: int|
                    0 <= k < n ==> (#[trigger] self.blocks@[k]).index == old(self).blocks@[k].index
                        && self.blocks@[k].begin == old(self).blocks@[k].begin
                        && self.blocks@[k].block_size == old(self).blocks@[k].block_size,
                forall|k: int| 0 <= k < j ==> (#[trigger] self.blocks@[k]).block_state is Saved,
            decreases n - j,
        {
            let old_block = &self.blocks[j];
            let block = Block {
                index: old_block.index,
                begin: old_block.begin,
                block_size: old_block.block_size,
                block_state: BlockState::Saved,
            };
            self.blocks.set(j, block);
            j = j + 1;
        }
    }
}

/// The number of bytes a piece is taken to span when a file position is
/// worked out.
pub open spec fn piece_span() -> int {
    32768
}

/// A file of a downloaded piece can be written: the file starts at or
/// before the piece, its position fits a `usize`, it has a path, and the
/// offset lies within the piece's bytes where the file starts or ends here.
pub open spec fn writable(index: int, f: FileInfoModel, bytes_len: int) -> bool {
    &&& start_of(f) <= index
    &&& (index - start_of(f)) * piece_span() + offset_of(f) <= usize::MAX
    &&& f.path.len() > 0
    &&& start_of(f) == index ==> offset_of(f) <= bytes_len
    &&& start_of(f) != index && end_of(f) == index ==> offset_of(f) <= piece_span()
}

/// The write of a downloaded piece's bytes into one of its files: the file's
/// first path element, at the piece's distance from the file's first piece
/// plus the file's offset; where the file starts in this piece, the bytes
/// from the offset on, and otherwise all of them.
pub open spec fn write_for(index: int, f: FileInfoModel, bytes: Seq<u8>) -> FileWriteModel {
    FileWriteModel {
        path: f.path[0],
        position: (index - start_of(f)) * piece_span() + offset_of(f),
        bytes: if start_of(f) == index {
            bytes.skip(offset_of(f))
        } else {
            bytes
        },
    }
}

impl Piece {
    /// The piece can be saved without fault: unless it is downloaded there
    /// is nothing to check, and otherwise every file is writable.
    pub open spec fn save_defined(&self) -> bool {
        match self.piece_state {
            PieceState::Downloaded { piece_bytes } => forall|k: int|
                0 <= k < self.files@.len() ==> writable(
                    self.index as int,
                    (#[trigger] self.files@[k])@,
                    piece_bytes@.len() as int,
                ),
            _ => true,
        }
    }

    /// The writes that save a downloaded piece, one per file it belongs to.
    /// A piece that is not downloaded cannot be saved when it belongs to a
    /// file; with no file there is nothing to write.
    pub fn plan_save(&self) -> (res: Result<Vec<FileWrite>, PieceError>)
        requires
            self.save_defined(),
        ensures
            match self.piece_state {
                PieceState::Downloaded { piece_bytes } => res is Ok && res->Ok_0@.len()
                    == self.files@.len() && forall|k: int|
                    0 <= k < self.files@.len() ==> (#[trigger] res->Ok_0@[k])@ == write_for(
                        self.index as int,
                        self.files@[k]@,
                        piece_bytes@,
                    ),
                _ => if self.files@.len() == 0 {
                    res is Ok && res->Ok_0@.len() == 0
                } else {
                    res == Err::<Vec<FileWrite>, PieceError>(PieceError::NotDownloaded)
                },
            },
    {
        let mut writes: Vec<FileWrite> = Vec::new();
        let mut k: usize = 0;
        while k < self.files.len()
            invariant
                k <= self.files@.len(),
                self.save_defined(),
                writes@.len() == k,
                self.piece_state is Downloaded || k == 0,
                forall|j: int|
                    0 <= j < k ==> match self.piece_state {
                        PieceState::Downloaded { piece_bytes } => (#[trigger] writes@[j])@
                            == write_for(self.index as int, self.files@[j]@, piece_bytes@),
                        _ => true,
                    },
            decreases self.files@.len() - k,
        {
            let file_info = &self.files[k];
            match &self.piece_state {
                PieceState::Downloaded { piece_bytes } => {
                    proof {
                        assert(writable(self.index as int, self.files@[k as int]@, piece_bytes@.len() as int));
                    }
                    let start_piece = match file_info.start_piece {
                        Some(s) => s,
                        None => 0,
                    };
                    let offset = match file_info.offset {
                        Some(o) => o,
                        None => 0,
                    };
                    let distance = self.index - start_piece;
                    proof {
                        assert(distance * 32768 <= usize::MAX) by (nonlinear_arith)
                            requires
                                distance * 32768 + offset <= usize::MAX,
                                offset >= 0,
                        ;
                    }
                    let position = distance * (Self::PIECE_SIZE as usize) + offset;
                    let bytes: Vec<u8> = if start_piece == self.index {
                        slice_from(piece_bytes.as_slice(), offset)
                    } else {
                        slice_from(piece_bytes.as_slice(), 0)
                    };
                    proof {
                        assert(piece_bytes@.skip(0) =~= piece_bytes@);
                    }
                    let path = file_info.path[0].clone();
                    writes.push(FileWrite { path, position, bytes });
                },
                _ => {
                    return Err(PieceError::NotDownloaded);
                },
            }
            k = k + 1;
        }
        Ok(writes)
    }
}

/// Where a downloaded piece's bytes go in one of its files: the file's first
/// path element, at 32768 bytes per piece past the file's first piece plus
/// the file's offset. A piece after the file's first is written whole, the
/// next piece lands 32768 bytes further on, and in the file's first piece
/// the bytes before the offset are left out and the write starts at the
/// offset.
pub proof fn lemma_piece_writes(index: int, f: FileInfoModel, bytes: Seq<u8>, next: Seq<u8>)
    requires
        start_of(f) <= index,
    ensures
        write_for(index, f, bytes).path == f.path[0],
        start_of(f) < index ==> write_for(index, f, bytes).bytes == bytes,
        start_of(f) < index ==> write_for(index, f, bytes).position == (index - start_of(f)) * 32768
            + offset_of(f),
        start_of(f) == index ==> write_for(index, f, bytes).bytes == bytes.skip(offset_of(f))
            && write_for(index, f, bytes).position == offset_of(f),
        write_for(index + 1, f, next).position == write_for(index, f, bytes).position + 32768,
        write_for(index + 1, f, next).bytes == next,
{
    assert((index + 1 - start_of(f)) * 32768 == (index - start_of(f)) * 32768 + 32768);
}

/// A copy of the bytes of `s` from position `start` on.
fn slice_from(s: &[u8], start: usize) -> (r: Vec<u8>)
    requires
        start <= s@.len(),
    ensures
        r@ == s@.skip(start as int),
{
    let mut r: Vec<u8> = Vec::new();
    let mut i: usize = start;
    while i < s.len()
        invariant
            start <= i <= s@.len(),
            r@ == s@.subrange(start as int, i as int),
        decreases s@.len() - i,
    {
        r.push(s[i]);
        i = i + 1;
        assert(r@ =~= s@.subrange(start as int, i as int));
    }
    assert(s@.subrange(start as int, s@.len() as int) =~= s@.skip(start as int));
    r
}

} // verus!

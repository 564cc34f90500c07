//! Torrent metainfo, single- or multi-file, and the sizes derived from it.
use vstd::prelude::*;
use crate::terror::piece::Priority;

pub mod torrent_downloader;
pub mod torrents_manager;

verus! {

#[derive(Clone)]
pub struct Torrent {
    /// The tracker's URL.
    pub announce: String,
    pub announce_list: Option<Vec<Vec<String>>>,
    pub comment: Option<String>,
    pub created_by: Option<String>,
    pub creation_date: Option<i64>,
    pub info: Info,
    pub url_list: Option<Vec<String>>,
}

#[derive(Clone)]
pub struct Info {
    /// The file's size in bytes, for single-file torrents.
    pub length: Option<usize>,
    /// The suggested name of the file or directory.
    pub name: String,
    /// The number of bytes in each piece.
    pub piece_length: Option<usize>,
    /// The SHA-1 hashes of the pieces, twenty bytes each.
    pub pieces: Vec<u8>,
    pub md5hash: Option<String>,
    /// The files of a multi-file torrent.
    pub files: Option<Vec<FileInfo>>,
}

#[derive(Clone)]
pub struct FileInfo {
    pub name: Option<String>,
    pub length: usize,
    pub path: Vec<String>,
    pub md5sum: Option<String>,
    pub offset: Option<usize>,
    pub start_piece: Option<usize>,
    pub end_piece: Option<usize>,
    pub priority: Option<Priority>,
}

/// The mathematical model of a file record.
pub struct FileInfoModel {
    pub name: Option<Seq<char>>,
    pub length: usize,
    pub path: Seq<Seq<char>>,
    pub md5sum: Option<Seq<char>>,
    pub offset: Option<usize>,
    pub start_piece: Option<usize>,
    pub end_piece: Option<usize>,
    pub priority: Option<Priority>,
}

pub open spec fn text_of(s: Option<String>) -> Option<Seq<char>> {
    match s {
        Some(t) => Some(t@),
        None => None,
    }
}

pub open spec fn texts_of(v: Seq<String>) -> Seq<Seq<char>> {
    v.map_values(|s: String| s@)
}

impl View for FileInfo {
    type V = FileInfoModel;

    open spec fn view(&self) -> FileInfoModel {
        FileInfoModel {
            name: text_of(self.name),
            length: self.length,
            path: texts_of(self.path@),
            md5sum: text_of(self.md5sum),
            offset: self.offset,
            start_piece: self.start_piece,
            end_piece: self.end_piece,
            priority: self.priority,
        }
    }
}

pub(crate) fn clone_text(s: &Option<String>) -> (r: Option<String>)
    ensures
        text_of(r) == text_of(*s),
{
    match s {
        Some(t) => Some(t.clone()),
        None => None,
    }
}

pub(crate) fn clone_texts(v: &Vec<String>) -> (r: Vec<String>)
    ensures
        texts_of(r@) == texts_of(v@),
{
    let mut r: Vec<String> = Vec::new();
    let mut i: usize = 0;
    while i < v.len()
        invariant
            i <= v@.len(),
            r@.len() == i,
            forall|k: int| 0 <= k < i ==> (#[trigger] r@[k])@ == v@[k]@,
        decreases v@.len() - i,
    {
        let t = v[i].clone();
        r.push(t);
        i = i + 1;
    }
    assert(texts_of(r@) =~= texts_of(v@));
    r
}

impl FileInfo {
    /// A copy of this record.
    pub fn duplicate(&self) -> (r: FileInfo)
        ensures
            r@ == self@,
    {
        FileInfo {
            name: clone_text(&self.name),
            length: self.length,
            path: clone_texts(&self.path),
            md5sum: clone_text(&self.md5sum),
            offset: self.offset,
            start_piece: self.start_piece,
            end_piece: self.end_piece,
            priority: self.priority,
        }
    }
}

/// The sum of the lengths of the files.
pub open spec fn files_total(files: Seq<FileInfo>) -> int
    decreases files.len(),
{
    if files.len() == 0 {
        0
    } else {
        files_total(files.drop_last()) + files.last().length
    }
}

/// The largest integer below which every integer is an exact `f64`.
pub open spec fn f64_exact_limit() -> int {
    0x20_0000_0000_0000
}

/// The ceiling of `a / b` as the piece count is computed: a zero piece
/// length gives zero pieces for an empty torrent and `usize::MAX` otherwise.
pub open spec fn pieces_for(total: int, piece_length: int) -> int {
    if piece_length == 0 {
        if total == 0 {
            0
        } else {
            usize::MAX as int
        }
    } else {
        (total + piece_length - 1) / piece_length
    }
}

impl Info {
    /// The size is known: given directly, or as the sum of the file sizes
    /// when that fits a `usize`.
    pub open spec fn length_defined(&self) -> bool {
        self.length is Some || (self.files is Some && files_total(self.files.unwrap()@)
            <= usize::MAX)
    }

    /// The torrent's size in bytes.
    pub open spec fn total_length(&self) -> int {
        match self.length {
            Some(l) => l as int,
            None => files_total(self.files.unwrap()@),
        }
    }

    /// The torrent's size: the single file's length, or the sum of the
    /// lengths of its files.
    pub fn length(&self) -> (n: usize)
        requires
            self.length_defined(),
        ensures
            n == self.total_length(),
    {
        match self.length {
            Some(length) => length,
            None => {
                let files = self.files.as_ref().unwrap();
                let mut acc: usize = 0;
                let mut i: usize = 0;
                while i < files.len()
                    invariant
                        i <= files@.len(),
                        files_total(files@) <= usize::MAX,
                        acc == files_total(files@.take(i as int)),
                    decreases files@.len() - i,
                {
                    proof {
                        lemma_files_total_prefix(files@, i as int + 1);
                        assert(files@.take(i as int + 1).drop_last() =~= files@.take(i as int));
                    }
                    acc = acc + files[i].length;
                    i = i + 1;
                }
                assert(files@.take(files@.len() as int) =~= files@);
                acc
            },
        }
    }
}

proof fn lemma_files_total_prefix(files: Seq<FileInfo>, k: int)
    requires
        0 <= k <= files.len(),
    ensures
        files_total(files.take(k)) <= files_total(files),
        files_total(files.take(k)) >= 0,
    decreases files.len(),
{
    if k == files.len() {
        assert(files.take(k) =~= files);
        lemma_files_total_nonneg(files);
    } else {
        lemma_files_total_prefix(files.drop_last(), k);
        assert(files.drop_last().take(k) =~= files.take(k));
    }
}

proof fn lemma_files_total_nonneg(files: Seq<FileInfo>)
    ensures
        files_total(files) >= 0,
    decreases files.len(),
{
    if files.len() > 0 {
        lemma_files_total_nonneg(files.drop_last());
    }
}

impl Torrent {
    /// At most this many pieces are downloaded at once.
    pub const MAX_CONCURRENT: usize = 4;

    /// A block is retried at most this many times.
    pub const MAX_RETRIES: usize = 2;

    /// The number of pieces: the size divided by the piece length, rounded
    /// up. The count is defined by rounding up a floating-point quotient;
    /// for sizes up to 2^53 that rounded-up quotient is exactly the count
    /// of whole and partial pieces, so the size is kept within that bound.
    pub fn get_number_of_pieces(&self) -> (n: usize)
        requires
            self.info.piece_length is Some,
            self.info.length_defined(),
            self.info.total_length() <= f64_exact_limit(),
        ensures
            n == pieces_for(self.info.total_length(), self.info.piece_length.unwrap() as int),
    {
        let total = self.info.length();
        let piece_length = self.info.piece_length.unwrap();
        if piece_length == 0 {
            if total == 0 {
                0
            } else {
                usize::MAX
            }
        } else {
            let whole = total / piece_length;
            if total % piece_length == 0 {
                proof {
                    assert((total + piece_length - 1) as int / piece_length as int == whole) by (nonlinear_arith)
                        requires
                            piece_length > 0,
                            whole == total / piece_length,
                            total % piece_length == 0,
                    ;
                }
                whole
            } else {
                proof {
                    assert((total + piece_length - 1) as int / piece_length as int == whole + 1) by (nonlinear_arith)
                        requires
                            piece_length > 0,
                            whole == total / piece_length,
                            total % piece_length != 0,
                    ;
                    assert(whole + 1 <= total) by (nonlinear_arith)
                        requires
                            piece_length > 0,
                            whole == total / piece_length,
                            total % piece_length != 0,
                    ;
                }
                whole + 1
            }
        }
    }

    /// The number of whole blocks in a piece.
    pub fn get_number_of_blocks(&self) -> (n: usize)
        requires
            self.info.piece_length is Some,
        ensures
            n == self.info.piece_length.unwrap() / 16384,
    {
        self.info.piece_length.unwrap() / 16384
    }
}

} // verus!

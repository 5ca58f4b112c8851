//! The files of a `.git` directory as plain values: what a reader of the
//! repository is handed, and the lookups over them.
use vstd::prelude::*;
use vstd::utf8::*;

use crate::hash::{hex_encode, GitHash};

verus! {

/// The content of a file of the repository, or the fact that it exists but
/// could not be read, with the description of the error that reading met.
#[derive(Debug, Clone)]
pub enum FileData {
    Bytes(Vec<u8>),
    Unreadable(String),
}

impl FileData {
    /// The bytes, or `None` for an unreadable file.
    pub open spec fn model(&self) -> Option<Seq<u8>> {
        match self {
            FileData::Bytes(b) => Some(b@),
            FileData::Unreadable(_) => None,
        }
    }
}

/// A file of the `.git` directory by its `/`-separated path relative to it
/// (`HEAD`, `packed-refs`, `refs/heads/main`, `logs/HEAD`, ...).
#[derive(Debug, Clone)]
pub struct RepoFile {
    pub path: String,
    pub data: FileData,
}

/// A loose object file `objects/<dir>/<name>`.
#[derive(Debug, Clone)]
pub struct LooseFile {
    pub dir: String,
    pub name: String,
    pub data: FileData,
}

/// A pack index `objects/pack/<name>` and the pack beside it (`None` when
/// there is no such pack file).
#[derive(Debug, Clone)]
pub struct PackFile {
    pub name: String,
    pub idx: FileData,
    pub pack: Option<FileData>,
}

/// The files of a `.git` directory that the reader consults.
#[derive(Debug, Clone)]
pub struct RepoFiles {
    /// The files at the top of the directory (`HEAD`, `packed-refs`, ...),
    /// everything under `refs/` (in the order a
    /// recursive directory walk meets them) and under `logs/`.
    pub files: Vec<RepoFile>,
    /// The walk of `refs/` failed for a reason other than its absence.
    pub refs_unreadable: bool,
    /// Loose object files, in directory-listing order.
    pub loose: Vec<LooseFile>,
    /// `objects/pack` could be listed.
    pub pack_dir_readable: bool,
    /// The `.idx` files of `objects/pack`, in any order.
    pub packs: Vec<PackFile>,
}

pub struct FileModel {
    pub path: Seq<u8>,
    pub data: Option<Seq<u8>>,
}

pub struct LooseModel {
    pub dir: Seq<u8>,
    pub name: Seq<u8>,
    pub data: Option<Seq<u8>>,
}

pub struct PackModel {
    pub name: Seq<u8>,
    pub idx: Option<Seq<u8>>,
    pub pack: Option<Option<Seq<u8>>>,
}

impl RepoFile {
    pub open spec fn model(&self) -> FileModel {
        FileModel { path: encode_utf8(self.path@), data: self.data.model() }
    }
}

impl LooseFile {
    pub open spec fn model(&self) -> LooseModel {
        LooseModel { dir: encode_utf8(self.dir@), name: encode_utf8(self.name@), data: self.data.model() }
    }
}

impl PackFile {
    pub open spec fn model(&self) -> PackModel {
        PackModel {
            name: encode_utf8(self.name@),
            idx: self.idx.model(),
            pack: match self.pack {
                Some(d) => Some(d.model()),
                None => None,
            },
        }
    }
}

pub open spec fn files_model(v: Seq<RepoFile>) -> Seq<FileModel> {
    v.map_values(|f: RepoFile| f.model())
}

pub open spec fn loose_model(v: Seq<LooseFile>) -> Seq<LooseModel> {
    v.map_values(|f: LooseFile| f.model())
}

pub open spec fn packs_model(v: Seq<PackFile>) -> Seq<PackModel> {
    v.map_values(|f: PackFile| f.model())
}

/// The repository as plain values.
pub struct RepoModel {
    pub files: Seq<FileModel>,
    pub refs_unreadable: bool,
    pub loose: Seq<LooseModel>,
    pub pack_dir_readable: bool,
    /// Ordered by name.
    pub packs: Seq<PackModel>,
}

/// Loose file `e` is the file of object `h`: `objects/xx/yyyy...` with the
/// lowercase hex digits of `h`.
pub open spec fn loose_matches(e: LooseModel, h: GitHash) -> bool {
    e.dir == hex_encode(h.0@).subrange(0, 2) && e.name == hex_encode(h.0@).subrange(2, 40)
}

/// The first of `s[0..n]` that is the file of `h`.
pub open spec fn first_loose(s: Seq<LooseModel>, h: GitHash, n: int) -> Option<int>
    decreases n,
{
    if n <= 0 {
        None
    } else {
        match first_loose(s, h, n - 1) {
            Some(k) => Some(k),
            None => if n - 1 < s.len() && loose_matches(s[n - 1], h) {
                Some(n - 1)
            } else {
                None
            },
        }
    }
}

pub proof fn lemma_first_loose(s: Seq<LooseModel>, h: GitHash, n: int)
    ensures
        first_loose(s, h, n) matches Some(k) ==> 0 <= k < n && k < s.len() && loose_matches(s[k], h),
        first_loose(s, h, n) is None ==> forall|k: int| 0 <= k < n && k < s.len() ==> !loose_matches(#[trigger] s[k], h),
    decreases n,
{
    if n > 0 {
        lemma_first_loose(s, h, n - 1);
    }
}

/// The first of `files[0..n]` whose path is `path`.
pub open spec fn file_slot(files: Seq<FileModel>, path: Seq<u8>, n: int) -> Option<int>
    decreases n,
{
    if n <= 0 {
        None
    } else {
        match file_slot(files, path, n - 1) {
            Some(k) => Some(k),
            None => if n - 1 < files.len() && files[n - 1].path == path {
                Some(n - 1)
            } else {
                None
            },
        }
    }
}

pub proof fn lemma_file_slot(files: Seq<FileModel>, path: Seq<u8>, n: int)
    ensures
        file_slot(files, path, n) matches Some(k) ==> 0 <= k < n && k < files.len() && files[k].path == path,
        file_slot(files, path, n) is None ==> forall|k: int| 0 <= k < n && k < files.len() ==> (#[trigger] files[k]).path != path,
    decreases n,
{
    if n > 0 {
        lemma_file_slot(files, path, n - 1);
    }
}

/// The file at `path`, by its position.
pub(crate) fn find_file(files: &Vec<RepoFile>, path: &[u8]) -> (r: Option<usize>)
    ensures
        r matches Some(k) ==> file_slot(files_model(files@), path@, files@.len() as int) == Some(k as int),
        r is None ==> file_slot(files_model(files@), path@, files@.len() as int) is None,
{
    let ghost fm = files_model(files@);
    let mut k: usize = 0;
    while k < files.len()
        invariant
            fm == files_model(files@),
            0 <= k <= files@.len(),
            file_slot(fm, path@, k as int) is None,
        decreases files@.len() - k,
    {
        let p = files[k].path.as_str().as_bytes();
        assert(fm[k as int].path == p@);
        if bytes_equal(p, path) {
            assert(file_slot(fm, path@, k + 1) == Some(k as int));
            proof {
                lemma_file_slot_mono(fm, path@, k + 1, files@.len() as int);
            }
            return Some(k);
        }
        k = k + 1;
    }
    None
}

proof fn lemma_file_slot_mono(files: Seq<FileModel>, path: Seq<u8>, n: int, m: int)
    requires
        n <= m,
        file_slot(files, path, n) is Some,
    ensures
        file_slot(files, path, m) == file_slot(files, path, n),
    decreases m - n,
{
    if m > n {
        lemma_file_slot_mono(files, path, n, m - 1);
    }
}

/// Byte-wise equality of two byte strings.
pub(crate) fn bytes_equal(a: &[u8], b: &[u8]) -> (r: bool)
    ensures
        r == (a@ == b@),
{
    if a.len() != b.len() {
        return false;
    }
    let mut i: usize = 0;
    while i < a.len()
        invariant
            a@.len() == b@.len(),
            0 <= i <= a@.len(),
            forall|j: int| 0 <= j < i ==> a@[j] == b@[j],
        decreases a@.len() - i,
    {
        if a[i] != b[i] {
            return false;
        }
        i = i + 1;
    }
    assert(a@ =~= b@);
    true
}


/// Once a file of `h` is found among the first `n`, more files do not change it.
pub proof fn lemma_first_loose_mono(s: Seq<LooseModel>, h: GitHash, n: int, m: int)
    requires
        n <= m,
        first_loose(s, h, n) is Some,
    ensures
        first_loose(s, h, m) == first_loose(s, h, n),
    decreases m - n,
{
    if m > n {
        lemma_first_loose_mono(s, h, n, m - 1);
    }
}

} // verus!

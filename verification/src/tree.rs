//! Tree objects: records of `<octal mode> <name>\0<20-byte hash>`.
use vstd::prelude::*;
use vstd::utf8::*;

use crate::error::{GitError, GitErrorModel};
use crate::hash::GitHash;
use crate::strings::{
    at_char_start, debug_text, join, lemma_char_start_zero, lemma_next_char_start, lemma_valid_cut,
    str_debug, string_of, text, utf8_error, utf8_error_text,
};
use crate::text::{find_byte, find_byte_exec, lemma_find_byte_hit, parse_int, parse_int_exec};

verus! {

/// One entry of a tree.
#[derive(Debug, Clone)]
pub struct TreeEntry {
    /// POSIX file mode (e.g. 0o100644 for a regular file, 0o40000 for a directory).
    pub mode: u32,
    pub name: String,
    pub hash: GitHash,
}

/// A tree entry with its name as UTF-8 bytes.
pub struct TreeEntryModel {
    pub mode: u32,
    pub name: Seq<u8>,
    pub hash: GitHash,
}

impl TreeEntry {
    pub open spec fn model(&self) -> TreeEntryModel {
        TreeEntryModel { mode: self.mode, name: encode_utf8(self.name@), hash: self.hash }
    }

    /// The entry is a subtree (mode 040000).
    pub fn is_directory(&self) -> (r: bool)
        ensures
            r == (self.mode == 0o40000),
    {
        self.mode == 0o40000
    }

    /// The entry is an executable file (mode 100755).
    pub fn is_executable(&self) -> (r: bool)
        ensures
            r == (self.mode == 0o100755),
    {
        self.mode == 0o100755
    }

    /// The entry is a symbolic link (mode 120000).
    pub fn is_symlink(&self) -> (r: bool)
        ensures
            r == (self.mode == 0o120000),
    {
        self.mode == 0o120000
    }
}

/// A parsed tree object.
#[derive(Debug, Clone)]
pub struct TreeObject {
    pub hash: GitHash,
    pub entries: Vec<TreeEntry>,
}

pub open spec fn entries_model(v: Seq<TreeEntry>) -> Seq<TreeEntryModel> {
    v.map_values(|e: TreeEntry| e.model())
}

/// The entries recorded in `s` from `pos` on, or what is wrong with the first
/// malformed record: no NUL ends its header, the header is not UTF-8 or has no
/// space, the mode before the space is not an octal `u32`, or fewer than 20
/// bytes of hash follow.
pub open spec fn spec_tree_entries(s: Seq<u8>, pos: int) -> Result<Seq<TreeEntryModel>, GitErrorModel>
    decreases s.len() - pos,
{
    if pos >= s.len() || pos < 0 {
        Ok(seq![])
    } else {
        let nul = find_byte(s, s.len() as int, 0, pos);
        if nul >= s.len() {
            Err(GitErrorModel::InvalidObject("tree entry missing NUL"@))
        } else if !valid_utf8(s.subrange(pos, nul)) {
            Err(GitErrorModel::InvalidObject("tree entry header not UTF-8: "@ + utf8_error_text(s.subrange(pos, nul))))
        } else {
            let sp = find_byte(s, nul, 0x20, pos);
            if sp >= nul {
                Err(GitErrorModel::InvalidObject("tree entry header missing space"@))
            } else {
                match parse_int(s.subrange(pos, sp), 8, 0, 0xffff_ffff) {
                    None => Err(
                        GitErrorModel::InvalidObject(
                            "invalid mode: "@ + debug_text(decode_utf8(s.subrange(pos, sp))),
                        ),
                    ),
                    Some(mode) => {
                        if nul + 1 + 20 > s.len() {
                            Err(GitErrorModel::InvalidObject("tree entry truncated: no hash bytes"@))
                        } else {
                            match spec_tree_entries(s, nul + 21) {
                                Err(e) => Err(e),
                                Ok(rest) => Ok(
                                    seq![
                                        TreeEntryModel {
                                            mode: mode as u32,
                                            name: s.subrange(sp + 1, nul),
                                            hash: GitHash(
                                                choose|a: [u8; 20]|
                                                    a@ == s.subrange(nul + 1, nul + 21),
                                            ),
                                        },
                                    ] + rest,
                                ),
                            }
                        }
                    },
                }
            }
        }
    }
}

impl TreeObject {
    /// Parse raw tree object bytes (after the object header is stripped).
    pub fn parse(hash: GitHash, data: &[u8]) -> (r: Result<TreeObject, GitError>)
        ensures
            r matches Ok(t) ==> t.hash == hash && spec_tree_entries(data@, 0) == Ok::<
                Seq<TreeEntryModel>,
                GitErrorModel,
            >(entries_model(t.entries@)),
            r matches Err(e) ==> spec_tree_entries(data@, 0) == Err::<Seq<TreeEntryModel>, GitErrorModel>(
                e.model(),
            ),
    {
        let len = data.len();
        let mut entries: Vec<TreeEntry> = Vec::new();
        let mut pos: usize = 0;
        while pos < len
            invariant
                len == data@.len(),
                pos <= len,
                spec_tree_entries(data@, 0) == match spec_tree_entries(data@, pos as int) {
                    Ok(rest) => Ok(entries_model(entries@) + rest),
                    Err(e) => Err::<Seq<TreeEntryModel>, GitErrorModel>(e),
                },
            decreases len - pos,
        {
            let nul = find_byte_exec(data, len, 0, pos);
            if nul >= len {
                return Err(GitError::InvalidObject(text("tree entry missing NUL")));
            }
            let header = slice_range(data, pos, nul);
            match utf8_error(&header) {
                Some(e) => {
                    return Err(GitError::InvalidObject(join(text("tree entry header not UTF-8: "), e.as_str())));
                },
                None => {},
            }
            let sp = find_byte_exec(data, nul, 0x20, pos);
            if sp >= nul {
                return Err(GitError::InvalidObject(text("tree entry header missing space")));
            }
            let mode = match parse_int_exec(data, pos, sp, 8, 0, 0xffff_ffff) {
                Some(m) => m as u32,
                None => {
                    proof {
                        let t = data@.subrange(pos as int, nul as int);
                        lemma_find_byte_hit(data@, nul as int, 0x20, pos as int);
                        assert(t[sp - pos] == 0x20);
                        assert(at_char_start(t, sp - pos));
                        lemma_char_start_zero(t);
                        lemma_valid_cut(t, 0, sp - pos);
                        assert(t.subrange(0, sp - pos) =~= data@.subrange(pos as int, sp as int));
                    }
                    let m = string_of(data, pos, sp);
                    proof {
                        encode_utf8_decode_utf8(m@);
                    }
                    return Err(GitError::InvalidObject(join(text("invalid mode: "), str_debug(m.as_str()).as_str())));
                },
            };
            if len - (nul + 1) < 20 {
                return Err(GitError::InvalidObject(text("tree entry truncated: no hash bytes")));
            }
            let entry_hash = match GitHash::from_bytes(&slice_range(data, nul + 1, nul + 21)) {
                Ok(h) => h,
                Err(e) => return Err(e),
            };
            proof {
                let t = data@.subrange(pos as int, nul as int);
                assert(t[sp - pos] == 0x20);
                assert(at_char_start(t, sp - pos));
                lemma_next_char_start(t, sp - pos, 1);
                lemma_valid_cut(t, sp - pos + 1, t.len() as int);
                assert(t.subrange(sp - pos + 1, t.len() as int) =~= data@.subrange(sp + 1, nul as int));
            }
            let name = string_of(data, sp + 1, nul);
            let ghost old_entries = entries@;
            let entry = TreeEntry { mode, name, hash: entry_hash };
            entries.push(entry);
            proof {
                let a = choose|a: [u8; 20]| a@ == data@.subrange(nul + 1, nul + 21);
                assert(exists|a: [u8; 20]| a@ == data@.subrange(nul + 1, nul + 21)) by {
                    assert(entry_hash.0@ == data@.subrange(nul + 1, nul + 21));
                }
                vstd::array::axiom_array_ext_equal(a, entry_hash.0);
                assert(entries_model(entries@) =~= entries_model(old_entries).push(entry.model()));
                let m = TreeEntryModel {
                    mode: mode,
                    name: data@.subrange(sp + 1, nul as int),
                    hash: entry_hash,
                };
                assert(entry.model() == m);
                match spec_tree_entries(data@, nul + 21) {
                    Ok(rest) => {
                        assert(entries_model(entries@) + rest =~= entries_model(old_entries) + (
                        seq![m] + rest));
                    },
                    Err(_) => {},
                }
            }
            pos = nul + 21;
        }
        Ok(TreeObject { hash, entries })
    }
}

/// A copy of `s[lo..hi]`.
pub(crate) fn slice_range(s: &[u8], lo: usize, hi: usize) -> (r: Vec<u8>)
    requires
        lo <= hi <= s@.len(),
    ensures
        r@ == s@.subrange(lo as int, hi as int),
{
    let mut v: Vec<u8> = Vec::new();
    let mut k = lo;
    while k < hi
        invariant
            lo <= k <= hi <= s@.len(),
            v@ == s@.subrange(lo as int, k as int),
        decreases hi - k,
    {
        v.push(s[k]);
        k = k + 1;
        assert(v@ =~= s@.subrange(lo as int, k as int));
    }
    v
}

} // verus!

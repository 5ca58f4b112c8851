//! Loose objects: a zlib stream of `<kind> <size>\0<data>`.
use vstd::prelude::*;
use vstd::utf8::*;

use crate::checksum::{sha1_digest, sha1_of_parts, zlib_decompressed, zlib_inflate};
use crate::error::{GitError, GitErrorModel};
use crate::files::{
    bytes_equal, first_loose, lemma_first_loose_mono, loose_matches, loose_model,
    FileData, LooseFile, LooseModel,
};
use crate::hash::{hash_of_bytes, hex_decode, is_hash_text, lemma_hash_of_bytes, GitHash};
use crate::pack::append_range;
use crate::object::{
    kind_from_name, kind_of_name, unknown_kind_error, unknown_kind_message, RawModel, RawObject,
};
use crate::strings::{
    at_char_start, debug_text, decimal_string, decimal_text, join, lemma_next_char_start,
    lemma_valid_cut, str_debug, string_of, text, utf8_error, utf8_error_text,
};
use crate::text::{find_byte, find_byte_exec, lemma_find_byte_hit, parse_int, parse_int_exec};
use crate::tree::slice_range;

verus! {

/// The most decompressed bytes read from a loose object (deflate-bomb guard): 512 MiB.
pub const MAX_DECOMPRESSED_SIZE: u64 = 536870912;

/// The object that the decompressed bytes `d` of a loose object named
/// `expected` hold: a UTF-8 header `<kind> <size>` ended by NUL, with a known
/// kind and a decimal size equal to the number of bytes after the NUL. It is
/// verified when the SHA-1 of all of `d` is its name.
pub open spec fn spec_parse_object(expected: GitHash, d: Seq<u8>) -> Result<RawModel, GitErrorModel> {
    let nul = find_byte(d, d.len() as int, 0, 0);
    if nul >= d.len() {
        Err(GitErrorModel::InvalidObject("missing NUL in object header"@))
    } else if !valid_utf8(d.subrange(0, nul)) {
        Err(GitErrorModel::InvalidObject("object header not UTF-8: "@ + utf8_error_text(d.subrange(0, nul))))
    } else {
        let sp = find_byte(d, nul, 0x20, 0);
        if sp >= nul {
            Err(GitErrorModel::InvalidObject("object header missing space"@))
        } else {
            match kind_of_name(d.subrange(0, sp)) {
                None => Err(GitErrorModel::InvalidObject(unknown_kind_message(d.subrange(0, sp)))),
                Some(k) => match parse_int(d.subrange(sp + 1, nul), 10, 0, usize::MAX as int) {
                    None => Err(
                        GitErrorModel::InvalidObject(
                            "invalid size in header: "@ + debug_text(decode_utf8(d.subrange(sp + 1, nul))),
                        ),
                    ),
                    Some(size) => {
                        if d.len() - (nul + 1) != size {
                            Err(
                                GitErrorModel::InvalidObject(
                                    "declared size "@ + decimal_text(size as nat) + " but data is "@
                                        + decimal_text((d.len() - (nul + 1)) as nat) + " bytes"@,
                                ),
                            )
                        } else {
                            Ok(
                                RawModel {
                                    kind: k,
                                    data: d.subrange(nul + 1, d.len() as int),
                                    verified: sha1_digest(d) == expected.0@,
                                },
                            )
                        }
                    },
                },
            }
        }
    }
}

/// The object that a compressed loose file holds: its inflation (read up to
/// [`MAX_DECOMPRESSED_SIZE`] bytes) parsed by [`spec_parse_object`].
pub open spec fn spec_decompress_and_parse(expected: GitHash, compressed: Seq<u8>) -> Result<
    RawModel,
    GitErrorModel,
> {
    match zlib_decompressed(compressed, MAX_DECOMPRESSED_SIZE as nat) {
        Err(m) => Err(GitErrorModel::InvalidObject("zlib decompression failed: "@ + m)),
        Ok(d) => spec_parse_object(expected, d),
    }
}

/// In a header `d[..nul]` of well-formed UTF-8 with a space at `sp`, the
/// text after the space is well-formed UTF-8 too.
proof fn lemma_header_field_valid(d: Seq<u8>, sp: int, nul: int)
    requires
        0 <= sp < nul <= d.len(),
        d[sp] == 0x20,
        valid_utf8(d.subrange(0, nul)),
    ensures
        valid_utf8(d.subrange(sp + 1, nul)),
{
    let h = d.subrange(0, nul);
    assert(h[sp] == 0x20);
    assert(at_char_start(h, sp));
    lemma_next_char_start(h, sp, 1);
    assert(at_char_start(h, nul as int));
    lemma_valid_cut(h, sp + 1, nul as int);
    assert(h.subrange(sp + 1, nul as int) =~= d.subrange(sp + 1, nul));
}

/// Parse the inflated bytes of a loose object.
pub(crate) fn parse_object(expected: &GitHash, d: &[u8]) -> (r: Result<RawObject, GitError>)
    ensures
        r matches Ok(o) ==> spec_parse_object(*expected, d@) == Ok::<RawModel, GitErrorModel>(o.model()),
        r matches Err(e) ==> spec_parse_object(*expected, d@) == Err::<RawModel, GitErrorModel>(e.model()),
{
    let digest = sha1_of_parts(&[], d);
    assert(Seq::<u8>::empty() + d@ =~= d@);
    let got = GitHash(digest);
    let verified = got == *expected;
    let len = d.len();
    let nul = find_byte_exec(d, len, 0, 0);
    if nul >= len {
        return Err(GitError::InvalidObject(text("missing NUL in object header")));
    }
    let header = slice_range(d, 0, nul);
    match utf8_error(&header) {
        Some(e) => {
            return Err(GitError::InvalidObject(join(text("object header not UTF-8: "), e.as_str())));
        },
        None => {},
    }
    let sp = find_byte_exec(d, nul, 0x20, 0);
    if sp >= nul {
        return Err(GitError::InvalidObject(text("object header missing space")));
    }
    let kind = match kind_from_name(d, 0, sp) {
        Some(k) => k,
        None => return Err(unknown_kind_error(d, 0, sp)),
    };
    let size = match parse_int_exec(d, sp + 1, nul, 10, 0, usize::MAX as u64) {
        Some(v) => v,
        None => {
            proof {
                lemma_find_byte_hit(d@, nul as int, 0x20, 0);
                lemma_header_field_valid(d@, sp as int, nul as int);
            }
            let t = string_of(d, sp + 1, nul);
            proof {
                encode_utf8_decode_utf8(t@);
            }
            let m = join(text("invalid size in header: "), str_debug(t.as_str()).as_str());
            return Err(GitError::InvalidObject(m));
        },
    };
    if (len - (nul + 1)) as i128 != size {
        let m = join(text("declared size "), decimal_string(size as u64).as_str());
        let m = join(m, " but data is ");
        let m = join(m, decimal_string((len - (nul + 1)) as u64).as_str());
        return Err(GitError::InvalidObject(join(m, " bytes")));
    }
    let data = slice_range(d, nul + 1, len);
    Ok(RawObject { kind, data, verified })
}

/// Inflate and parse a loose object file's bytes.
pub fn decompress_and_parse(expected: &GitHash, compressed: &[u8]) -> (r: Result<RawObject, GitError>)
    ensures
        r matches Ok(o) ==> spec_decompress_and_parse(*expected, compressed@) == Ok::<RawModel, GitErrorModel>(o.model()),
        r matches Err(e) ==> spec_decompress_and_parse(*expected, compressed@) == Err::<RawModel, GitErrorModel>(e.model()),
{
    match zlib_inflate(compressed, MAX_DECOMPRESSED_SIZE) {
        Err(e) => Err(GitError::InvalidObject(join(text("zlib decompression failed: "), e.as_str()))),
        Ok(d) => parse_object(expected, &d),
    }
}


/// The object that loose file `objects/<dir>/<name>` names: a directory of two
/// hex digits and a file name of 38 (either case).
pub open spec fn loose_entry_hash(e: LooseModel) -> Option<GitHash> {
    if e.dir.len() == 2 && is_hash_text(e.dir + e.name) {
        Some(hash_of_bytes(hex_decode(e.dir + e.name)))
    } else {
        None
    }
}

/// The objects that the loose files `s` name, in their order.
pub open spec fn loose_listing(s: Seq<LooseModel>) -> Seq<GitHash>
    decreases s.len(),
{
    if s.len() == 0 {
        seq![]
    } else {
        let rest = loose_listing(s.drop_last());
        match loose_entry_hash(s.last()) {
            Some(h) => rest.push(h),
            None => rest,
        }
    }
}

/// Enumerate every loose object among the files of `objects/<xx>/<38hex>`.
/// Malformed names (other directories such as `pack` or `info`, other file
/// names) are skipped; never panics.
pub fn list_loose(objects_dir: &Vec<LooseFile>) -> (r: Vec<GitHash>)
    ensures
        r@ == loose_listing(loose_model(objects_dir@)),
{
    let ghost lm = loose_model(objects_dir@);
    let mut out: Vec<GitHash> = Vec::new();
    let mut k: usize = 0;
    assert(lm.take(0) =~= Seq::<LooseModel>::empty());
    while k < objects_dir.len()
        invariant
            lm == loose_model(objects_dir@),
            lm.len() == objects_dir@.len(),
            0 <= k <= objects_dir@.len(),
            out@ == loose_listing(lm.take(k as int)),
        decreases objects_dir@.len() - k,
    {
        let e = &objects_dir[k];
        let d = e.dir.as_str().as_bytes();
        let n = e.name.as_str().as_bytes();
        assert(lm[k as int] == e.model());
        assert(lm.take(k + 1).drop_last() =~= lm.take(k as int));
        if d.len() == 2 {
            let mut t: Vec<u8> = Vec::new();
            append_range(&mut t, d, 0, 2);
            append_range(&mut t, n, 0, n.len());
            assert(t@ =~= d@ + n@);
            assert(t@.subrange(0, t@.len() as int) =~= t@);
            match GitHash::parse_hex(t.as_slice(), 0, t.len()) {
                Some(h) => {
                    proof {
                        lemma_hash_of_bytes(h);
                    }
                    out.push(h);
                },
                None => {},
            }
        }
        k = k + 1;
    }
    assert(lm.take(lm.len() as int) =~= lm);
    out
}

/// The object named `h` read from the loose files `objects`: the first file
/// of `h`, which must be readable and hold it.
pub open spec fn spec_read_loose(objects: Seq<LooseModel>, h: GitHash) -> Result<RawModel, GitErrorModel> {
    match first_loose(objects, h, objects.len() as int) {
        None => Err(GitErrorModel::ObjectNotFound(h)),
        Some(i) => match objects[i].data {
            None => Err(GitErrorModel::Io),
            Some(b) => spec_decompress_and_parse(h, b),
        },
    }
}

pub open spec fn loose_result(r: Result<RawObject, GitError>) -> Result<RawModel, GitErrorModel> {
    match r {
        Ok(o) => Ok(o.model()),
        Err(e) => Err(e.model()),
    }
}

/// Read and parse a loose git object file: `objects/<xx>/<38hex>` of `hash`.
pub fn read_loose(objects_dir: &Vec<LooseFile>, hash: &GitHash) -> (r: Result<RawObject, GitError>)
    ensures
        loose_result(r) == spec_read_loose(loose_model(objects_dir@), *hash),
{
    let ghost lm = loose_model(objects_dir@);
    let (dir, file) = hash.object_path();
    let mut k: usize = 0;
    while k < objects_dir.len()
        invariant
            lm == loose_model(objects_dir@),
            lm.len() == objects_dir@.len(),
            0 <= k <= objects_dir@.len(),
            encode_utf8(dir@) == crate::hash::hex_encode(hash.0@).subrange(0, 2),
            encode_utf8(file@) == crate::hash::hex_encode(hash.0@).subrange(2, 40),
            first_loose(lm, *hash, k as int) is None,
        decreases objects_dir@.len() - k,
    {
        let e = &objects_dir[k];
        assert(lm[k as int] == e.model());
        if bytes_equal(e.dir.as_str().as_bytes(), dir.as_str().as_bytes())
            && bytes_equal(e.name.as_str().as_bytes(), file.as_str().as_bytes()) {
            assert(loose_matches(lm[k as int], *hash));
            assert(first_loose(lm, *hash, k + 1) == Some(k as int));
            proof {
                lemma_first_loose_mono(lm, *hash, k + 1, lm.len() as int);
            }
            return match &e.data {
                FileData::Unreadable(m) => Err(GitError::Io(m.clone())),
                FileData::Bytes(b) => decompress_and_parse(hash, b.as_slice()),
            };
        }
        k = k + 1;
    }
    Err(GitError::ObjectNotFound(*hash))
}

} // verus!

//! Packfiles (pack v2 + index v2): index lookup, pack object headers, and
//! delta reconstruction.
use vstd::prelude::*;

use crate::checksum::{sha1_digest, sha1_of_parts, zlib_decompressed, zlib_inflate};
use crate::error::{GitError, GitErrorModel};
use crate::files::{packs_model, FileData, PackFile, PackModel};
use crate::hash::{hash_of_bytes, lemma_hash_of_bytes, GitHash};
use crate::object::{kind_name, kind_name_bytes, ObjectKind};
use crate::strings::{decimal_string, decimal_text, join, text};
use crate::text::{decimal, decimal_exec};

verus! {

/// Deflate-bomb guard: reject any pack object decompressing past 512 MiB.
pub const MAX_OBJECT_SIZE: u64 = 536870912;

/// Guard against a pathological delta-base chain (cycles / fuzzed packs).
pub const MAX_DELTA_DEPTH: u32 = 64;

/// The big-endian value of `n` bytes of `b` from `off`.
pub open spec fn be_value(b: Seq<u8>, off: int, n: int) -> int
    decreases n,
{
    if n <= 0 {
        0
    } else {
        be_value(b, off, n - 1) * 256 + b[off + n - 1]
    }
}

/// The big-endian `u32` at `off`, if four bytes are there.
pub open spec fn spec_be_u32(b: Seq<u8>, off: int) -> Option<int> {
    if 0 <= off && off + 4 <= b.len() {
        Some(be_value(b, off, 4))
    } else {
        None
    }
}

/// The big-endian `u64` at `off`, if eight bytes are there.
pub open spec fn spec_be_u64(b: Seq<u8>, off: int) -> Option<int> {
    if 0 <= off && off + 8 <= b.len() {
        Some(be_value(b, off, 8))
    } else {
        None
    }
}

pub proof fn lemma_be_value_bound(b: Seq<u8>, off: int, n: int)
    requires
        0 <= n,
    ensures
        0 <= be_value(b, off, n) < pow256(n),
    decreases n,
{
    if n > 0 {
        lemma_be_value_bound(b, off, n - 1);
        let v = be_value(b, off, n - 1);
        assert(v * 256 + b[off + n - 1] < pow256(n)) by (nonlinear_arith)
            requires
                0 <= v < pow256(n - 1),
                pow256(n) == pow256(n - 1) * 256,
                0 <= b[off + n - 1] < 256,
        ;
        assert(v * 256 >= 0) by (nonlinear_arith)
            requires
                v >= 0,
        ;
    }
}

pub open spec fn pow256(n: int) -> int
    decreases n,
{
    if n <= 0 {
        1
    } else {
        pow256(n - 1) * 256
    }
}

/// Read `n` (at most 8) big-endian bytes of `b` at `off`, if they are there.
fn be_read(b: &[u8], off: u64, n: u64) -> (r: Option<u64>)
    requires
        1 <= n <= 8,
    ensures
        r is Some <==> off + n <= b@.len(),
        r matches Some(v) ==> v == be_value(b@, off as int, n as int),
{
    let len = b.len() as u64;
    if off > len || len - off < n {
        return None;
    }
    let blen = b.len();
    let o = off as usize;
    let mut v: u64 = 0;
    let mut k: u64 = 0;
    while k < n
        invariant
            1 <= n <= 8,
            off + n <= b@.len(),
            o == off,
            blen == b@.len(),
            0 <= k <= n,
            v as int == be_value(b@, off as int, k as int),
        decreases n - k,
    {
        proof {
            lemma_be_value_bound(b@, off as int, k as int);
            reveal_with_fuel(pow256, 9);
            assert(pow256(k as int) <= pow256(7)) by {
                lemma_pow256_mono(k as int, 7);
            }
        }
        v = v * 256 + b[o + k as usize] as u64;
        k = k + 1;
    }
    Some(v)
}

pub proof fn lemma_pow256_mono(a: int, b: int)
    requires
        0 <= a <= b,
    ensures
        1 <= pow256(a) <= pow256(b),
    decreases b,
{
    if b > a {
        lemma_pow256_mono(a, b - 1);
    } else if a > 0 {
        lemma_pow256_mono(a - 1, a - 1);
    }
}

/// The big-endian `u32` at `off`.
pub(crate) fn be_u32(b: &[u8], off: u64) -> (r: Result<u32, GitError>)
    ensures
        r matches Ok(v) ==> spec_be_u32(b@, off as int) == Some(v as int),
        r matches Err(e) ==> spec_be_u32(b@, off as int) is None && e is OutOfBounds,
{
    match be_read(b, off, 4) {
        Some(v) => {
            proof {
                lemma_be_value_bound(b@, off as int, 4);
                reveal_with_fuel(pow256, 5);
            }
            Ok(v as u32)
        },
        None => Err(GitError::OutOfBounds),
    }
}

/// The big-endian `u64` at `off`.
pub(crate) fn be_u64(b: &[u8], off: u64) -> (r: Result<u64, GitError>)
    ensures
        r matches Ok(v) ==> spec_be_u64(b@, off as int) == Some(v as int),
        r matches Err(e) ==> spec_be_u64(b@, off as int) is None && e is OutOfBounds,
{
    match be_read(b, off, 8) {
        Some(v) => Ok(v),
        None => Err(GitError::OutOfBounds),
    }
}

/// Offset of the sorted object-name table in an index v2 file.
pub open spec fn names_base() -> int {
    1032int
}

/// Three-way comparison (-1, 0, 1) of two 20-byte names from byte `i` on.
pub open spec fn name_order(a: Seq<u8>, b: Seq<u8>, i: int) -> int
    decreases 20 - i,
{
    if i >= 20 || i < 0 {
        0
    } else if a[i] < b[i] {
        -1
    } else if a[i] > b[i] {
        1
    } else {
        name_order(a, b, i + 1)
    }
}

/// The binary search of an index v2 name table over slots `lo..hi` for
/// `want`: `Ok(Some(offset))` with the pack offset of the slot that matches
/// (a small offset directly, or through the large-offset table when its top
/// bit is set), `Ok(None)` when the range empties, `OutOfBounds` when a table
/// read falls outside the file.
pub open spec fn idx_search(idx: Seq<u8>, want: Seq<u8>, lo: int, hi: int, count: int) -> Result<
    Option<int>,
    GitErrorModel,
>
    decreases hi - lo,
{
    if lo >= hi {
        Ok(None)
    } else {
        let mid = lo + (hi - lo) / 2;
        let noff = names_base() + mid * 20;
        if noff + 20 > idx.len() {
            Err(GitErrorModel::OutOfBounds)
        } else {
            let c = name_order(idx.subrange(noff, noff + 20), want, 0);
            if c < 0 {
                idx_search(idx, want, mid + 1, hi, count)
            } else if c > 0 {
                idx_search(idx, want, lo, mid, count)
            } else {
                let offsets = names_base() + count * 24;
                match spec_be_u32(idx, offsets + mid * 4) {
                    None => Err(GitErrorModel::OutOfBounds),
                    Some(raw) => {
                        if raw < 0x8000_0000 {
                            Ok(Some(raw))
                        } else {
                            match spec_be_u64(idx, offsets + count * 4 + (raw - 0x8000_0000) * 8) {
                                None => Err(GitErrorModel::OutOfBounds),
                                Some(v) => Ok(Some(v)),
                            }
                        }
                    },
                }
            }
        }
    }
}

/// The index v2 magic `\377tOc`.
pub open spec fn idx_magic() -> Seq<u8> {
    seq![0xffu8, 0x74, 0x4f, 0x63]
}

/// Where the pack that `idx` indexes stores `hash`: a v2 index (magic, then
/// version 2) is searched between the fanout bounds of the hash's first
/// byte; anything else is refused as unsupported.
pub open spec fn spec_idx_lookup(idx: Seq<u8>, hash: GitHash) -> Result<Option<int>, GitErrorModel> {
    if idx.len() < 8 || idx.subrange(0, 4) != idx_magic() || spec_be_u32(idx, 4) != Some(2int) {
        Err(GitErrorModel::PackfileUnsupported(hash))
    } else {
        let first = hash.0@[0] as int;
        let lo = if first == 0 {
            Some(0int)
        } else {
            spec_be_u32(idx, 8 + (first - 1) * 4)
        };
        match (lo, spec_be_u32(idx, 8 + first * 4), spec_be_u32(idx, 1028int)) {
            (Some(lo), Some(hi), Some(count)) => idx_search(idx, hash.0@, lo, hi, count),
            _ => Err(GitErrorModel::OutOfBounds),
        }
    }
}

fn name_order_exec(idx: &[u8], off: usize, want: &[u8; 20]) -> (r: i8)
    requires
        off + 20 <= idx@.len(),
    ensures
        r as int == name_order(idx@.subrange(off as int, off + 20), want@, 0),
{
    let ghost a = idx@.subrange(off as int, off + 20);
    let n = idx.len();
    let mut i: usize = 0;
    while i < 20
        invariant
            n == idx@.len(),
            off + 20 <= idx@.len(),
            a == idx@.subrange(off as int, off + 20),
            0 <= i <= 20,
            name_order(a, want@, i as int) == name_order(a, want@, 0),
        decreases 20 - i,
    {
        let x = idx[off + i];
        let y = want[i];
        assert(a[i as int] == x);
        if x < y {
            return -1;
        } else if x > y {
            return 1;
        }
        i = i + 1;
    }
    0
}

/// Binary-search an index v2 fanout/name table for `hash`, returning its pack
/// byte offset. Non-v2 indexes fail loud rather than silently miss.
pub(crate) fn idx_lookup(idx: &[u8], hash: &GitHash) -> (r: Result<Option<u64>, GitError>)
    ensures
        r matches Ok(o) ==> spec_idx_lookup(idx@, *hash) == Ok::<Option<int>, GitErrorModel>(
            match o {
                Some(v) => Some(v as int),
                None => None,
            },
        ),
        r matches Err(e) ==> spec_idx_lookup(idx@, *hash) == Err::<Option<int>, GitErrorModel>(e.model()),
{
    if idx.len() < 8 || idx[0] != 0xff || idx[1] != 0x74 || idx[2] != 0x4f || idx[3] != 0x63 {
        proof {
            if idx@.len() >= 8 {
                assert(idx@.subrange(0, 4) != idx_magic()) by {
                    if idx@.subrange(0, 4) == idx_magic() {
                        assert(idx@.subrange(0, 4)[0] == idx@[0]);
                        assert(idx@.subrange(0, 4)[1] == idx@[1]);
                        assert(idx@.subrange(0, 4)[2] == idx@[2]);
                        assert(idx@.subrange(0, 4)[3] == idx@[3]);
                    }
                }
            }
        }
        return Err(GitError::PackfileUnsupported(*hash));
    }
    assert(idx@.subrange(0, 4) =~= idx_magic());
    match be_u32(idx, 4) {
        Ok(v) => {
            if v != 2 {
                return Err(GitError::PackfileUnsupported(*hash));
            }
        },
        Err(_) => {
            return Err(GitError::PackfileUnsupported(*hash));
        },
    }
    let want = hash.as_bytes();
    let first = want[0] as u64;
    let lo0 = if first == 0 {
        0
    } else {
        match be_u32(idx, 8 + (first - 1) * 4) {
            Ok(v) => v as u64,
            Err(e) => return Err(e),
        }
    };
    let hi0 = match be_u32(idx, 8 + first * 4) {
        Ok(v) => v as u64,
        Err(e) => return Err(e),
    };
    let count = match be_u32(idx, 8 + 255 * 4) {
        Ok(v) => v as u64,
        Err(e) => return Err(e),
    };
    let mut lo = lo0;
    let mut hi = hi0;
    let ghost total = idx_search(idx@, hash.0@, lo0 as int, hi0 as int, count as int);
    while lo < hi
        invariant
            lo <= 0xffff_ffff,
            hi <= 0xffff_ffff,
            count <= 0xffff_ffff,
            want@ == hash.0@,
            total == idx_search(idx@, hash.0@, lo as int, hi as int, count as int),
            total == spec_idx_lookup(idx@, *hash),
        decreases hi - lo,
    {
        let mid = lo + (hi - lo) / 2;
        let noff = 1032 + mid * 20;
        if noff + 20 > idx.len() as u64 {
            return Err(GitError::OutOfBounds);
        }
        let c = name_order_exec(idx, noff as usize, want);
        if c < 0 {
            lo = mid + 1;
        } else if c > 0 {
            hi = mid;
        } else {
            let offsets = 1032 + count * 24;
            let raw = match be_u32(idx, offsets + mid * 4) {
                Ok(v) => v,
                Err(e) => return Err(e),
            };
            if raw < 0x8000_0000 {
                return Ok(Some(raw as u64));
            }
            let slot = (raw - 0x8000_0000) as u64;
            return match be_u64(idx, offsets + count * 4 + slot * 8) {
                Ok(v) => Ok(Some(v)),
                Err(e) => Err(e),
            };
        }
    }
    Ok(None)
}

/// `2^n`.
pub open spec fn pow2(n: nat) -> nat
    decreases n,
{
    if n == 0 {
        1
    } else {
        2 * pow2((n - 1) as nat)
    }
}

/// The 3-bit type and where the body starts, of the pack object header at
/// `off`: a first byte carrying the type in bits 4..6, then size bytes for as
/// long as the top bit is set. A header that runs off the pack, or whose size
/// would need a shift of `usize::BITS` or more, is out of bounds.
pub open spec fn spec_object_header(pack: Seq<u8>, off: int) -> Result<(int, int), GitErrorModel> {
    if off < 0 || off >= pack.len() {
        Err(GitErrorModel::OutOfBounds)
    } else {
        let b = pack[off];
        let type_id = ((b / 16) % 8) as int;
        if b < 0x80 {
            Ok((type_id, off + 1))
        } else {
            match header_end(pack, off + 1, 4) {
                Ok(p) => Ok((type_id, p)),
                Err(k) => Err(k),
            }
        }
    }
}

/// Where the continuation bytes of an object header starting at `pos` end.
pub open spec fn header_end(pack: Seq<u8>, pos: int, shift: int) -> Result<int, GitErrorModel>
    decreases pack.len() - pos,
{
    if pos < 0 || pos >= pack.len() || shift >= usize::BITS {
        Err(GitErrorModel::OutOfBounds)
    } else if pack[pos] < 0x80 {
        Ok(pos + 1)
    } else {
        header_end(pack, pos + 1, shift + 7)
    }
}

/// Parse a pack object header at `off`: its type and where its body starts.
/// (The size it records is not needed: the body is inflated to its end.)
pub(crate) fn parse_object_header(pack: &[u8], off: usize) -> (r: Result<(u8, usize), GitError>)
    ensures
        r matches Ok((t, p)) ==> spec_object_header(pack@, off as int) == Ok::<(int, int), GitErrorModel>((t as int, p as int)),
        r matches Err(e) ==> spec_object_header(pack@, off as int) == Err::<(int, int), GitErrorModel>(e.model()),
{
    if off >= pack.len() {
        return Err(GitError::OutOfBounds);
    }
    let b = pack[off];
    let type_id = (b / 16) % 8;
    if b < 0x80 {
        return Ok((type_id, off + 1));
    }
    let mut pos = off + 1;
    let mut shift: u32 = 4;
    while pos < pack.len()
        invariant
            off < pos <= pack@.len(),
            shift <= usize::BITS + 7,
            spec_object_header(pack@, off as int) == match header_end(pack@, pos as int, shift as int) {
                Ok(p) => Ok::<(int, int), GitErrorModel>((type_id as int, p)),
                Err(k) => Err(k),
            },
        decreases pack@.len() - pos,
    {
        if shift >= usize::BITS {
            return Err(GitError::OutOfBounds);
        }
        let c = pack[pos];
        pos = pos + 1;
        if c < 0x80 {
            return Ok((type_id, pos));
        }
        shift = shift + 7;
    }
    Err(GitError::OutOfBounds)
}

/// `x << 7` in `usize`, where bits shifted past the top are lost.
pub open spec fn shl7_usize(x: int) -> int {
    (x % (usize::MAX as int / 128 + 1)) * 128
}

/// The base distance of an `OFS_DELTA` (a big-endian base-128 number where
/// each continuation adds one before shifting) and where the delta data
/// starts. A continuation when the value is `usize::MAX` overflows.
pub open spec fn spec_ofs_delta(pack: Seq<u8>, off: int) -> Result<(int, int), GitErrorModel> {
    if off < 0 || off >= pack.len() {
        Err(GitErrorModel::OutOfBounds)
    } else {
        let b = pack[off];
        if b < 0x80 {
            Ok(((b % 128) as int, off + 1))
        } else {
            ofs_rest(pack, off + 1, (b % 128) as int)
        }
    }
}

pub open spec fn ofs_rest(pack: Seq<u8>, pos: int, value: int) -> Result<(int, int), GitErrorModel>
    decreases pack.len() - pos,
{
    if pos < 0 || pos >= pack.len() || value >= usize::MAX {
        Err(GitErrorModel::OutOfBounds)
    } else {
        let b = pack[pos];
        let v = shl7_usize(value + 1) + b % 128;
        if b < 0x80 {
            Ok((v, pos + 1))
        } else {
            ofs_rest(pack, pos + 1, v)
        }
    }
}

proof fn lemma_shl7_bound(x: int)
    requires
        0 <= x,
    ensures
        0 <= shl7_usize(x),
        shl7_usize(x) + 127 <= usize::MAX,
{
    let m = usize::MAX as int / 128 + 1;
    assert(0 <= x % m < m);
    assert((x % m) * 128 <= (m - 1) * 128) by (nonlinear_arith)
        requires
            0 <= x % m < m,
    ;
    assert((x % m) * 128 >= 0) by (nonlinear_arith)
        requires
            0 <= x % m,
    ;
}

/// The groups that git writes before the last one for a base distance whose
/// quotient by 128 is `q`: none for 0; otherwise those for `(q - 1) / 128`,
/// then `(q - 1) % 128` with the continuation bit.
pub open spec fn ofs_groups(q: nat) -> Seq<u8>
    decreases q,
{
    if q == 0 {
        seq![]
    } else {
        ofs_groups(((q - 1) / 128) as nat).push((0x80 + (q - 1) % 128) as u8)
    }
}

/// The bytes that git writes for the base distance `d` of an `OFS_DELTA`:
/// its low seven bits come last, and each higher group is written less one.
pub open spec fn ofs_encoding(d: nat) -> Seq<u8> {
    ofs_groups(d / 128).push((d % 128) as u8)
}

proof fn lemma_ofs_groups(pack: Seq<u8>, off: int, q: nat)
    requires
        q > 0,
        q <= usize::MAX as int / 128,
        0 <= off,
        off + ofs_groups(q).len() < pack.len(),
        pack.subrange(off, off + ofs_groups(q).len()) == ofs_groups(q),
    ensures
        ofs_groups(q).len() >= 1,
        spec_ofs_delta(pack, off) == ofs_rest(pack, off + ofs_groups(q).len(), q - 1),
    decreases q,
{
    let g = ofs_groups(q);
    let q2 = ((q - 1) / 128) as nat;
    let c = (0x80 + (q - 1) % 128) as u8;
    assert(g == ofs_groups(q2).push(c));
    let g2 = ofs_groups(q2);
    assert(pack[off + g2.len()] == g[g2.len() as int]);
    if q2 == 0 {
        assert(g.len() == 1);
        assert(pack[off] == c);
    } else {
        assert(pack.subrange(off, off + g2.len()) =~= g2) by {
            assert forall|i: int| 0 <= i < g2.len() implies pack.subrange(off, off + g2.len())[i] == g2[i] by {
                assert(pack[off + i] == g[i]);
            }
        }
        lemma_ofs_groups(pack, off, q2);
        let pos = off + g2.len();
        let m = usize::MAX as int / 128 + 1;
        assert(q2 < m);
        vstd::arithmetic::div_mod::lemma_small_mod(q2, m as nat);
        assert(shl7_usize(q2 as int) == q2 * 128);
        assert(q2 * 128 + (q - 1) % 128 == q - 1);
    }
}

/// Decoding inverts git's encoding of base distances: wherever the bytes
/// that git writes for a distance `d` stand in a pack, the `OFS_DELTA`
/// decoder reads back `d` and ends right after them.
pub proof fn law_ofs_distance_roundtrip(pack: Seq<u8>, off: int, d: nat)
    requires
        d <= usize::MAX,
        0 <= off,
        off + ofs_encoding(d).len() <= pack.len(),
        pack.subrange(off, off + ofs_encoding(d).len()) == ofs_encoding(d),
    ensures
        spec_ofs_delta(pack, off) == Ok::<(int, int), GitErrorModel>((d as int, off + ofs_encoding(d).len())),
{
    let q = d / 128;
    let e = ofs_encoding(d);
    let g = ofs_groups(q);
    assert(e == g.push((d % 128) as u8));
    assert(pack[off + g.len()] == e[g.len() as int]);
    if q == 0 {
        assert(g.len() == 0);
    } else {
        assert(pack.subrange(off, off + g.len()) =~= g) by {
            assert forall|i: int| 0 <= i < g.len() implies pack.subrange(off, off + g.len())[i] == g[i] by {
                assert(pack[off + i] == e[i]);
            }
        }
        lemma_ofs_groups(pack, off, q);
        let m = usize::MAX as int / 128 + 1;
        assert(q < m);
        vstd::arithmetic::div_mod::lemma_small_mod(q, m as nat);
        assert(shl7_usize(q as int) == q * 128);
    }
}

/// Parse the `OFS_DELTA` base distance at `off`: the distance and where the
/// delta data starts.
pub(crate) fn parse_ofs_delta(pack: &[u8], off: usize) -> (r: Result<(usize, usize), GitError>)
    ensures
        r matches Ok((v, p)) ==> spec_ofs_delta(pack@, off as int) == Ok::<(int, int), GitErrorModel>((v as int, p as int)),
        r matches Err(e) ==> spec_ofs_delta(pack@, off as int) == Err::<(int, int), GitErrorModel>(e.model()),
{
    if off >= pack.len() {
        return Err(GitError::OutOfBounds);
    }
    let b = pack[off];
    if b < 0x80 {
        return Ok(((b % 128) as usize, off + 1));
    }
    let mut value: usize = (b % 128) as usize;
    let mut pos = off + 1;
    while pos < pack.len()
        invariant
            off < pos <= pack@.len(),
            spec_ofs_delta(pack@, off as int) == ofs_rest(pack@, pos as int, value as int),
        decreases pack@.len() - pos,
    {
        if value == usize::MAX {
            return Err(GitError::OutOfBounds);
        }
        let c = pack[pos];
        let m: usize = usize::MAX / 128 + 1;
        proof {
            lemma_shl7_bound(value + 1);
        }
        let shifted = ((value + 1) % m) * 128;
        let v = shifted + (c % 128) as usize;
        pos = pos + 1;
        if c < 0x80 {
            return Ok((v, pos));
        }
        value = v;
    }
    Err(GitError::OutOfBounds)
}

/// A delta size (little-endian base-128) read from `p` on, with the part
/// already read worth `acc` and the next group of 7 bits going to `shift`:
/// the value (truncated to `usize`) and where it ends. A size that runs off
/// the delta, or that needs a shift of `usize::BITS` or more, is out of
/// bounds.
pub open spec fn delta_size(d: Seq<u8>, p: int, shift: nat, acc: int) -> Result<(int, int), GitErrorModel>
    decreases d.len() - p,
{
    if p < 0 || p >= d.len() || shift >= usize::BITS {
        Err(GitErrorModel::OutOfBounds)
    } else {
        let acc2 = acc + (d[p] % 128) * pow2(shift);
        if d[p] < 0x80 {
            Ok((acc2 % (usize::MAX as int + 1), p + 1))
        } else {
            delta_size(d, p + 1, shift + 7, acc2)
        }
    }
}

proof fn lemma_pow2_step(n: nat)
    ensures
        pow2(n + 7) == pow2(n) * 128,
        pow2(n) >= 1,
{
    reveal_with_fuel(pow2, 8);
    lemma_pow2_pos(n);
}

proof fn lemma_pow2_pos(n: nat)
    ensures
        pow2(n) >= 1,
    decreases n,
{
    if n > 0 {
        lemma_pow2_pos((n - 1) as nat);
    }
}

proof fn lemma_pow2_le(a: nat, b: nat)
    requires
        a <= b,
    ensures
        pow2(a) <= pow2(b),
    decreases b,
{
    if b > a {
        lemma_pow2_le(a, (b - 1) as nat);
    }
}

/// The weights `2^shift` that the groups of a delta size can have.
spec fn group_weight(shift: int, unit: int) -> bool {
    (shift == 0 && unit == 1) ||
        (shift == 7 && unit == 128) ||
        (shift == 14 && unit == 16384) ||
        (shift == 21 && unit == 2097152) ||
        (shift == 28 && unit == 268435456) ||
        (shift == 35 && unit == 34359738368) ||
        (shift == 42 && unit == 4398046511104) ||
        (shift == 49 && unit == 562949953421312) ||
        (shift == 56 && unit == 72057594037927936) ||
        (shift == 63 && unit == 9223372036854775808) ||
        (shift == 70 && unit == 1180591620717411303424)
}

/// Read a little-endian base-128 delta size at `p`: the value and where it ends.
pub(crate) fn read_delta_size(delta: &[u8], p: usize) -> (r: Result<(usize, usize), GitError>)
    ensures
        r matches Ok((v, q)) ==> delta_size(delta@, p as int, 0, 0) == Ok::<(int, int), GitErrorModel>((v as int, q as int)),
        r matches Err(e) ==> delta_size(delta@, p as int, 0, 0) == Err::<(int, int), GitErrorModel>(e.model()),
{
    let mut pos = p;
    let mut shift: u32 = 0;
    let mut acc: u128 = 0;
    let mut unit: u128 = 1;
    while pos < delta.len()
        invariant
            p <= pos,
            pos <= delta@.len() || pos == p,
            shift <= usize::BITS + 7,
            unit as int == pow2(shift as nat),
            group_weight(shift as int, unit as int),
            acc < unit * 128,
            delta_size(delta@, p as int, 0, 0) == delta_size(delta@, pos as int, shift as nat, acc as int),
        decreases delta@.len() - pos,
    {
        if shift >= usize::BITS {
            return Err(GitError::OutOfBounds);
        }
        let b = delta[pos];
        proof {
            lemma_pow2_step(shift as nat);
            assert(unit <= 0x8000_0000_0000_0000u128);
            assert(((b % 128) as int) * (unit as int) <= 127 * 0x8000_0000_0000_0000) by (nonlinear_arith)
                requires
                    (b % 128) <= 127,
                    unit <= 0x8000_0000_0000_0000u128,
            ;
        }
        let acc2 = acc + ((b % 128) as u128) * unit;
        proof {
            assert(acc2 < unit * 128 * 128) by (nonlinear_arith)
                requires
                    acc < unit * 128,
                    acc2 == acc + (b % 128) * unit,
                    b % 128 < 128,
            ;
        }
        pos = pos + 1;
        if b < 0x80 {
            let m: u128 = usize::MAX as u128 + 1;
            return Ok(((acc2 % m) as usize, pos));
        }
        acc = acc2;
        unit = unit * 128;
        shift = shift + 7;
    }
    Err(GitError::OutOfBounds)
}

/// The mask of bit `k` of a byte.
pub open spec fn bit_mask(k: int) -> u8 {
    if k == 0 {
        1
    } else if k == 1 {
        2
    } else if k == 2 {
        4
    } else if k == 3 {
        8
    } else if k == 4 {
        16
    } else if k == 5 {
        32
    } else {
        64
    }
}

fn bit_mask_exec(k: usize) -> (r: u8)
    requires
        k <= 6,
    ensures
        r == bit_mask(k as int),
{
    if k == 0 {
        1
    } else if k == 1 {
        2
    } else if k == 2 {
        4
    } else if k == 3 {
        8
    } else if k == 4 {
        16
    } else if k == 5 {
        32
    } else {
        64
    }
}

/// The argument of a COPY instruction `cmd` held in groups `i..n` of bits
/// starting at `first_bit`: for each set bit, the next delta byte (from `p`)
/// is byte `i` (little-endian) of the value. Returns the value and where the
/// bytes end, or `None` when they run off the delta.
pub open spec fn copy_arg(d: Seq<u8>, p: int, cmd: u8, first_bit: int, i: int, n: int) -> Option<(int, int)>
    decreases n - i,
{
    if i >= n {
        Some((0, p))
    } else if cmd & bit_mask(first_bit + i) != 0 {
        if p < 0 || p >= d.len() {
            None
        } else {
            match copy_arg(d, p + 1, cmd, first_bit, i + 1, n) {
                Some((v, q)) => Some((d[p] * pow256(i) + v, q)),
                None => None,
            }
        }
    } else {
        copy_arg(d, p, cmd, first_bit, i + 1, n)
    }
}

/// Run the delta instructions from `p` on, having produced `out` so far: a
/// command with the top bit set copies `size` bytes of `base` from `offset`
/// (both from the bytes that the command's bits announce; size 0 means
/// 0x10000), a command `1..=127` inserts that many literal bytes of the delta,
/// and command 0 is reserved.
pub open spec fn delta_run(base: Seq<u8>, d: Seq<u8>, p: int, out: Seq<u8>) -> Result<Seq<u8>, GitErrorModel>
    decreases d.len() - p,
{
    if p < 0 || p >= d.len() {
        Ok(out)
    } else {
        let cmd = d[p];
        if cmd >= 0x80 {
            match copy_arg(d, p + 1, cmd, 0, 0, 4) {
                None => Err(GitErrorModel::OutOfBounds),
                Some((off, p1)) => match copy_arg(d, p1, cmd, 4, 0, 3) {
                    None => Err(GitErrorModel::OutOfBounds),
                    Some((size0, p2)) => {
                        let size = if size0 == 0 {
                            0x10000
                        } else {
                            size0
                        };
                        if off + size > base.len() || p2 <= p || p2 > d.len() {
                            Err(GitErrorModel::OutOfBounds)
                        } else {
                            delta_run(base, d, p2, out + base.subrange(off, off + size))
                        }
                    },
                },
            }
        } else if cmd != 0 {
            if p + 1 + cmd > d.len() {
                Err(GitErrorModel::OutOfBounds)
            } else {
                delta_run(base, d, p + 1 + cmd, out + d.subrange(p + 1, p + 1 + cmd))
            }
        } else {
            Err(GitErrorModel::InvalidObject("delta opcode 0 is reserved"@))
        }
    }
}

/// What is said when a delta produces `got` bytes where its header declared
/// `declared`.
pub open spec fn delta_size_message(got: nat, declared: nat) -> Seq<char> {
    "delta produced "@ + decimal_text(got) + " bytes, header said "@ + decimal_text(declared)
}

/// The object a git delta rebuilds from `base`: the declared source size must
/// be the base's length; after it and the target size, the instructions run
/// to the end of the delta and must produce exactly the target size.
pub open spec fn spec_apply_delta(base: Seq<u8>, d: Seq<u8>) -> Result<Seq<u8>, GitErrorModel> {
    match delta_size(d, 0, 0, 0) {
        Err(k) => Err(k),
        Ok((src, _)) if src != base.len() => Err(
            GitErrorModel::InvalidObject("delta source size differs from its base"@),
        ),
        Ok((_, p)) => match delta_size(d, p, 0, 0) {
            Err(k) => Err(k),
            Ok((target, q)) => match delta_run(base, d, q, seq![]) {
                Err(k) => Err(k),
                Ok(out) => {
                    if out.len() != target {
                        Err(GitErrorModel::InvalidObject(delta_size_message(out.len(), target as nat)))
                    } else {
                        Ok(out)
                    }
                },
            },
        },
    }
}

/// The bytes that git writes for a delta size `n`: groups of seven bits,
/// lowest first, each but the last with the continuation bit.
pub open spec fn size_encoding(n: nat) -> Seq<u8>
    decreases n,
{
    if n < 128 {
        seq![n as u8]
    } else {
        seq![(0x80 + n % 128) as u8] + size_encoding(n / 128)
    }
}

proof fn lemma_pow2_usize_bits()
    ensures
        pow2(usize::BITS as nat) == usize::MAX + 1,
{
    assert(pow2(0) == 1);
    lemma_pow2_step(0);
    lemma_pow2_step(7);
    lemma_pow2_step(14);
    lemma_pow2_step(21);
    lemma_pow2_step(28);
    lemma_pow2_step(35);
    lemma_pow2_step(42);
    lemma_pow2_step(49);
    lemma_pow2_step(56);
    assert(pow2(29) == 2 * pow2(28));
    assert(pow2(30) == 2 * pow2(29));
    assert(pow2(31) == 2 * pow2(30));
    assert(pow2(32) == 2 * pow2(31));
    assert(pow2(64) == 2 * pow2(63));
    assert(pow2(32) == 0x1_0000_0000);
    assert(pow2(64) == 0x1_0000_0000_0000_0000);
}

proof fn lemma_size_encoding(d: Seq<u8>, p: int, shift: nat, acc: int, n: nat)
    requires
        0 <= p,
        p + size_encoding(n).len() <= d.len(),
        d.subrange(p, p + size_encoding(n).len()) == size_encoding(n),
        0 <= acc,
        acc + n * pow2(shift) <= usize::MAX,
        n >= 1 || shift == 0,
    ensures
        size_encoding(n).len() >= 1,
        delta_size(d, p, shift, acc) == Ok::<(int, int), GitErrorModel>(
            (acc + n * pow2(shift), p + size_encoding(n).len()),
        ),
    decreases n,
{
    let e = size_encoding(n);
    assert(d[p] == d.subrange(p, p + e.len())[0]);
    lemma_pow2_usize_bits();
    lemma_pow2_pos(shift);
    if shift >= usize::BITS {
        lemma_pow2_le(usize::BITS as nat, shift);
        assert(n * pow2(shift) >= pow2(shift)) by (nonlinear_arith)
            requires
                n >= 1,
        ;
        assert(false);
    }
    let m = usize::MAX as int + 1;
    if n < 128 {
        assert(d[p] == n);
        vstd::arithmetic::div_mod::lemma_small_mod((acc + n * pow2(shift)) as nat, m as nat);
    } else {
        let n2 = n / 128;
        let e2 = size_encoding(n2);
        assert(e == seq![(0x80 + n % 128) as u8] + e2);
        assert(d[p] == 0x80 + n % 128);
        assert(d.subrange(p + 1, p + 1 + e2.len()) =~= e2) by {
            assert forall|i: int| 0 <= i < e2.len() implies d.subrange(p + 1, p + 1 + e2.len())[i] == e2[i] by {
                assert(d.subrange(p, p + e.len())[i + 1] == e[i + 1]);
            }
        }
        lemma_pow2_step(shift);
        let acc2 = acc + (n % 128) * pow2(shift);
        assert(acc2 + n2 * pow2(shift + 7) == acc + n * pow2(shift)) by (nonlinear_arith)
            requires
                acc2 == acc + (n % 128) * pow2(shift),
                pow2(shift + 7) == pow2(shift) * 128,
                n == 128 * n2 + n % 128,
        ;
        assert(acc2 >= 0) by (nonlinear_arith)
            requires
                acc >= 0,
                n % 128 >= 0,
                pow2(shift) >= 1,
                acc2 == acc + (n % 128) * pow2(shift),
        ;
        lemma_size_encoding(d, p + 1, shift + 7, acc2, n2);
    }
}

/// A COPY instruction that gives no size bytes copies 0x10000 bytes, as git
/// writes a full 64 KiB copy: for every base of at least 0x10000 bytes, the
/// delta that declares the base's size and a 0x10000-byte target, then holds
/// the single command 0x80 (copy from offset 0, no offset or size bytes),
/// rebuilds the first 0x10000 bytes of the base.
pub proof fn law_copy_without_size_copies_64k(base: Seq<u8>)
    requires
        0x10000 <= base.len() <= usize::MAX,
    ensures
        spec_apply_delta(base, size_encoding(base.len()) + size_encoding(0x10000) + seq![0x80u8])
            == Ok::<Seq<u8>, GitErrorModel>(base.subrange(0, 0x10000)),
{
    let e1 = size_encoding(base.len());
    let e2 = size_encoding(0x10000);
    let d = e1 + e2 + seq![0x80u8];
    reveal_with_fuel(pow2, 2);
    assert(d.subrange(0, e1.len() as int) =~= e1);
    lemma_size_encoding(d, 0, 0, 0, base.len());
    let q1 = e1.len() as int;
    assert(d.subrange(q1, q1 + e2.len()) =~= e2);
    lemma_size_encoding(d, q1, 0, 0, 0x10000);
    let q = q1 + e2.len();
    assert(d[q] == 0x80u8);
    assert(d.len() == q + 1);
    assert(0x80u8 & bit_mask(0) == 0) by (bit_vector);
    assert(0x80u8 & bit_mask(1) == 0) by (bit_vector);
    assert(0x80u8 & bit_mask(2) == 0) by (bit_vector);
    assert(0x80u8 & bit_mask(3) == 0) by (bit_vector);
    assert(0x80u8 & bit_mask(4) == 0) by (bit_vector);
    assert(0x80u8 & bit_mask(5) == 0) by (bit_vector);
    assert(0x80u8 & bit_mask(6) == 0) by (bit_vector);
    reveal_with_fuel(copy_arg, 5);
    assert(copy_arg(d, q + 1, 0x80u8, 0, 0, 4) == Some((0int, q + 1)));
    assert(copy_arg(d, q + 1, 0x80u8, 4, 0, 3) == Some((0int, q + 1)));
    assert(delta_run(base, d, q + 1, base.subrange(0, 0x10000)) == Ok::<Seq<u8>, GitErrorModel>(
        base.subrange(0, 0x10000),
    ));
    assert(delta_run(base, d, q, seq![]) == Ok::<Seq<u8>, GitErrorModel>(base.subrange(0, 0x10000))) by {
        assert(seq![] + base.subrange(0, 0x10000) =~= base.subrange(0, 0x10000));
    }
}

/// The copy size 0 stands for 0x10000 whether its bytes are absent or given
/// as zero, and the copy starts at the offset it names: for every base and
/// every one-byte offset `o` with `o + 0x10000` within the base, the delta
/// declaring the base's size and a 0x10000-byte target, then the command
/// 0x81 with `o` (no size bytes), or 0x91 with `o` and a size byte 0,
/// rebuilds `base[o..o + 0x10000]`.
pub proof fn law_copy_size_zero_is_64k(base: Seq<u8>, o: u8, zero_byte: bool)
    requires
        o + 0x10000 <= base.len() <= usize::MAX,
    ensures
        spec_apply_delta(
            base,
            size_encoding(base.len()) + size_encoding(0x10000) + (if zero_byte {
                seq![0x91u8, o, 0x00u8]
            } else {
                seq![0x81u8, o]
            }),
        ) == Ok::<Seq<u8>, GitErrorModel>(base.subrange(o as int, o + 0x10000)),
{
    let e1 = size_encoding(base.len());
    let e2 = size_encoding(0x10000);
    let cmds = if zero_byte {
        seq![0x91u8, o, 0x00u8]
    } else {
        seq![0x81u8, o]
    };
    let cmd: u8 = if zero_byte { 0x91 } else { 0x81 };
    let d = e1 + e2 + cmds;
    reveal_with_fuel(pow2, 2);
    assert(d.subrange(0, e1.len() as int) =~= e1);
    lemma_size_encoding(d, 0, 0, 0, base.len());
    let q1 = e1.len() as int;
    assert(d.subrange(q1, q1 + e2.len()) =~= e2);
    lemma_size_encoding(d, q1, 0, 0, 0x10000);
    let q = q1 + e2.len();
    assert(d[q] == cmd);
    assert(d[q + 1] == o);
    assert(d.len() == q + cmds.len());
    assert(0x81u8 & bit_mask(0) != 0) by (bit_vector);
    assert(0x81u8 & bit_mask(1) == 0) by (bit_vector);
    assert(0x81u8 & bit_mask(2) == 0) by (bit_vector);
    assert(0x81u8 & bit_mask(3) == 0) by (bit_vector);
    assert(0x81u8 & bit_mask(4) == 0) by (bit_vector);
    assert(0x81u8 & bit_mask(5) == 0) by (bit_vector);
    assert(0x81u8 & bit_mask(6) == 0) by (bit_vector);
    assert(0x91u8 & bit_mask(0) != 0) by (bit_vector);
    assert(0x91u8 & bit_mask(1) == 0) by (bit_vector);
    assert(0x91u8 & bit_mask(2) == 0) by (bit_vector);
    assert(0x91u8 & bit_mask(3) == 0) by (bit_vector);
    assert(0x91u8 & bit_mask(4) != 0) by (bit_vector);
    assert(0x91u8 & bit_mask(5) == 0) by (bit_vector);
    assert(0x91u8 & bit_mask(6) == 0) by (bit_vector);
    reveal_with_fuel(copy_arg, 5);
    reveal_with_fuel(pow256, 2);
    assert(copy_arg(d, q + 2, cmd, 0, 1, 4) == Some((0int, q + 2)));
    assert(copy_arg(d, q + 1, cmd, 0, 0, 4) == Some((o as int, q + 2)));
    let p2 = q + cmds.len();
    if zero_byte {
        assert(d[q + 2] == 0);
        assert(copy_arg(d, q + 3, cmd, 4, 1, 3) == Some((0int, q + 3)));
        assert(copy_arg(d, q + 2, cmd, 4, 0, 3) == Some((0int, q + 3)));
    } else {
        assert(copy_arg(d, q + 2, cmd, 4, 0, 3) == Some((0int, q + 2)));
    }
    let out = base.subrange(o as int, o + 0x10000);
    assert(delta_run(base, d, p2, out) == Ok::<Seq<u8>, GitErrorModel>(out));
    assert(delta_run(base, d, q, seq![]) == Ok::<Seq<u8>, GitErrorModel>(out)) by {
        assert(seq![] + out =~= out);
    }
}

/// Read the argument bytes of a COPY command.
fn read_copy_arg(d: &[u8], p: usize, cmd: u8, first_bit: usize, n: usize) -> (r: Option<(u64, usize)>)
    requires
        first_bit + n <= 7,
        n <= 4,
    ensures
        r matches Some((v, q)) ==> copy_arg(d@, p as int, cmd, first_bit as int, 0, n as int) == Some((v as int, q as int)),
        r is None ==> copy_arg(d@, p as int, cmd, first_bit as int, 0, n as int) is None,
        r matches Some((v, q)) ==> p <= q && v < 0x1_0000_0000,
{
    // Collect the bytes present, then combine them little-endian.
    let mut i: usize = 0;
    let mut q = p;
    let mut v: u64 = 0;
    let mut unit: u64 = 1;
    while i < n
        invariant
            first_bit + n <= 7,
            n <= 4,
            0 <= i <= n,
            p <= q,
            unit as int == pow256(i as int),
            v < unit,
            copy_arg(d@, p as int, cmd, first_bit as int, 0, n as int) == match copy_arg(
                d@,
                q as int,
                cmd,
                first_bit as int,
                i as int,
                n as int,
            ) {
                Some((w, e)) => Some((v + w, e)),
                None => None,
            },
        decreases n - i,
    {
        proof {
            reveal_with_fuel(pow256, 5);
            lemma_pow256_mono(i as int, 3);
            lemma_pow256_mono(i as int, 4);
        }
        if cmd & bit_mask_exec(first_bit + i) != 0 {
            if q >= d.len() {
                return None;
            }
            let b = d[q] as u64;
            proof {
                assert(b * unit <= 255 * 0x100_0000) by (nonlinear_arith)
                    requires
                        b <= 255,
                        unit <= 0x100_0000,
                ;
                assert(v + b * unit < unit * 256) by (nonlinear_arith)
                    requires
                        v < unit,
                        b <= 255,
                ;
            }
            v = v + b * unit;
            q = q + 1;
        }
        unit = unit * 256;
        i = i + 1;
    }
    proof {
        reveal_with_fuel(pow256, 5);
        lemma_pow256_mono(i as int, 4);
    }
    Some((v, q))
}

/// Append `src[lo..hi]` to `out`.
pub(crate) fn append_range(out: &mut Vec<u8>, src: &[u8], lo: usize, hi: usize)
    requires
        lo <= hi <= src@.len(),
    ensures
        final(out)@ == old(out)@ + src@.subrange(lo as int, hi as int),
{
    let ghost start = out@;
    let mut k = lo;
    while k < hi
        invariant
            lo <= k <= hi <= src@.len(),
            out@ == start + src@.subrange(lo as int, k as int),
        decreases hi - k,
    {
        out.push(src[k]);
        k = k + 1;
        assert(out@ =~= start + src@.subrange(lo as int, k as int));
    }
}

/// Apply a git delta (`base` + delta instructions → reconstructed object).
pub fn apply_delta(base: &[u8], delta: &[u8]) -> (r: Result<Vec<u8>, GitError>)
    ensures
        r matches Ok(v) ==> spec_apply_delta(base@, delta@) == Ok::<Seq<u8>, GitErrorModel>(v@),
        r matches Err(e) ==> spec_apply_delta(base@, delta@) == Err::<Seq<u8>, GitErrorModel>(e.model()),
{
    let (src, p0) = match read_delta_size(delta, 0) {
        Ok(x) => x,
        Err(e) => return Err(e),
    };
    if src != base.len() {
        return Err(GitError::InvalidObject(text("delta source size differs from its base")));
    }
    let (target, q) = match read_delta_size(delta, p0) {
        Ok(x) => x,
        Err(e) => return Err(e),
    };
    let len = delta.len();
    let mut out: Vec<u8> = Vec::new();
    let mut p = q;
    let ghost run = delta_run(base@, delta@, q as int, seq![]);
    while p < len
        invariant
            len == delta@.len(),
            run == delta_run(base@, delta@, p as int, out@),
            spec_apply_delta(base@, delta@) == match run {
                Err(k) => Err(k),
                Ok(o) => {
                    if o.len() != target {
                        Err(GitErrorModel::InvalidObject(delta_size_message(o.len(), target as nat)))
                    } else {
                        Ok(o)
                    }
                },
            },
        decreases len - p,
    {
        let cmd = delta[p];
        if cmd >= 0x80 {
            let (off, p1) = match read_copy_arg(delta, p + 1, cmd, 0, 4) {
                Some(x) => x,
                None => return Err(GitError::OutOfBounds),
            };
            let (size0, p2) = match read_copy_arg(delta, p1, cmd, 4, 3) {
                Some(x) => x,
                None => return Err(GitError::OutOfBounds),
            };
            let size: u64 = if size0 == 0 {
                0x10000
            } else {
                size0
            };
            if off + size > base.len() as u64 || p2 <= p || p2 > len {
                return Err(GitError::OutOfBounds);
            }
            append_range(&mut out, base, off as usize, (off + size) as usize);
            p = p2;
        } else if cmd != 0 {
            let n = cmd as usize;
            if n > len - (p + 1) {
                return Err(GitError::OutOfBounds);
            }
            append_range(&mut out, delta, p + 1, p + 1 + n);
            p = p + 1 + n;
        } else {
            return Err(GitError::InvalidObject(text("delta opcode 0 is reserved")));
        }
    }
    if out.len() != target {
        let m = join(text("delta produced "), decimal_string(out.len() as u64).as_str());
        let m = join(m, " bytes, header said ");
        return Err(GitError::InvalidObject(join(m, decimal_string(target as u64).as_str())));
    }
    Ok(out)
}

/// The inflation of the zlib stream at `start` of `pack`, refused past
/// [`MAX_OBJECT_SIZE`] bytes.
pub open spec fn spec_inflate(pack: Seq<u8>, start: int) -> Result<Seq<u8>, GitErrorModel> {
    if start < 0 || start > pack.len() {
        Err(GitErrorModel::OutOfBounds)
    } else {
        match zlib_decompressed(pack.subrange(start, pack.len() as int), MAX_OBJECT_SIZE as nat + 1) {
            Err(m) => Err(GitErrorModel::InvalidObject("pack zlib failed: "@ + m)),
            Ok(out) => {
                if out.len() > MAX_OBJECT_SIZE {
                    Err(GitErrorModel::DeflateBomb)
                } else {
                    Ok(out)
                }
            },
        }
    }
}

/// Inflate the zlib stream beginning at `start`, with a bomb guard.
pub(crate) fn inflate(pack: &[u8], start: usize) -> (r: Result<Vec<u8>, GitError>)
    ensures
        r matches Ok(v) ==> spec_inflate(pack@, start as int) == Ok::<Seq<u8>, GitErrorModel>(v@),
        r matches Err(e) ==> spec_inflate(pack@, start as int) == Err::<Seq<u8>, GitErrorModel>(e.model()),
{
    if start > pack.len() {
        return Err(GitError::OutOfBounds);
    }
    let (_, compressed) = pack.split_at(start);
    match zlib_inflate(compressed, MAX_OBJECT_SIZE + 1) {
        Err(e) => Err(GitError::InvalidObject(join(text("pack zlib failed: "), e.as_str()))),
        Ok(out) => {
            if out.len() as u64 > MAX_OBJECT_SIZE {
                Err(GitError::DeflateBomb)
            } else {
                Ok(out)
            }
        },
    }
}

/// The base kind a pack type id 1..=4 stands for.
pub open spec fn kind_of_type(type_id: int) -> Option<ObjectKind> {
    if type_id == 1 {
        Some(ObjectKind::Commit)
    } else if type_id == 2 {
        Some(ObjectKind::Tree)
    } else if type_id == 3 {
        Some(ObjectKind::Blob)
    } else if type_id == 4 {
        Some(ObjectKind::Tag)
    } else {
        None
    }
}

/// The base kind of a pack type id.
pub(crate) fn kind_from_type(type_id: u8) -> (r: Result<ObjectKind, GitError>)
    ensures
        r matches Ok(k) ==> kind_of_type(type_id as int) == Some(k),
        r matches Err(e) ==> kind_of_type(type_id as int) is None && e.model() == GitErrorModel::InvalidObject(
            "pack object type "@ + decimal_text(type_id as nat) + " is not a base type"@,
        ),
{
    if type_id == 1 {
        Ok(ObjectKind::Commit)
    } else if type_id == 2 {
        Ok(ObjectKind::Tree)
    } else if type_id == 3 {
        Ok(ObjectKind::Blob)
    } else if type_id == 4 {
        Ok(ObjectKind::Tag)
    } else {
        let m = join(text("pack object type "), decimal_string(type_id as u64).as_str());
        Err(GitError::InvalidObject(join(m, " is not a base type")))
    }
}

/// The loose-object header `"<kind> <len>\0"` that names are hashed over.
pub open spec fn object_header(kind: ObjectKind, len: nat) -> Seq<u8> {
    kind_name(kind) + seq![0x20u8] + decimal(len) + seq![0u8]
}

/// The SHA-1 of `"<kind> <len>\0<data>"` is the object's name.
pub open spec fn spec_verify(hash: GitHash, kind: ObjectKind, data: Seq<u8>) -> bool {
    sha1_digest(object_header(kind, data.len()) + data) == hash.0@
}

/// SHA-1 over `"<kind> <len>\0<data>"` must equal the object's name.
pub(crate) fn verify(hash: &GitHash, kind: ObjectKind, data: &[u8]) -> (r: bool)
    ensures
        r == spec_verify(*hash, kind, data@),
{
    let mut header = kind_name_bytes(kind);
    header.push(0x20);
    let digits = decimal_exec(data.len() as u64);
    append_range(&mut header, digits.as_slice(), 0, digits.len());
    header.push(0);
    proof {
        assert(digits@.subrange(0, digits@.len() as int) =~= digits@);
        assert(header@ =~= object_header(kind, data@.len()));
    }
    let digest = sha1_of_parts(header.as_slice(), data);
    GitHash(digest) == *hash
}


/// The object names that index `idx` lists, in its order: a v2 index (magic,
/// then version 2) whose name table of `count` entries (the last fanout
/// value) lies within the file.
pub open spec fn spec_idx_names(idx: Seq<u8>) -> Result<Seq<GitHash>, GitErrorModel> {
    if idx.len() < 8 || idx.subrange(0, 4) != idx_magic() || spec_be_u32(idx, 4) != Some(2int) {
        Err(GitErrorModel::InvalidObject("unsupported pack index"@))
    } else {
        match spec_be_u32(idx, 1028int) {
            None => Err(GitErrorModel::OutOfBounds),
            Some(count) => if names_base() + count * 20 > idx.len() {
                Err(GitErrorModel::OutOfBounds)
            } else {
                Ok(
                    Seq::new(
                        count as nat,
                        |k: int| hash_of_bytes(idx.subrange(names_base() + 20 * k, names_base() + 20 * k + 20)),
                    ),
                )
            },
        }
    }
}

/// The names that the pack indexes `s` list, index after index; the first
/// index that cannot be read or listed fails the whole listing.
pub open spec fn packed_listing(s: Seq<PackModel>) -> Result<Seq<GitHash>, GitErrorModel>
    decreases s.len(),
{
    if s.len() == 0 {
        Ok(seq![])
    } else {
        match packed_listing(s.drop_last()) {
            Err(k) => Err(k),
            Ok(acc) => match s.last().idx {
                None => Err(GitErrorModel::Io),
                Some(b) => match spec_idx_names(b) {
                    Err(k) => Err(k),
                    Ok(names) => Ok(acc + names),
                },
            },
        }
    }
}

/// Every packed object: nothing when `objects/pack` cannot be listed.
pub open spec fn spec_list_packed(packs: Seq<PackModel>, pack_dir_readable: bool) -> Result<Seq<GitHash>, GitErrorModel> {
    if !pack_dir_readable {
        Ok(seq![])
    } else {
        packed_listing(packs)
    }
}

pub open spec fn names_result(r: Result<Vec<GitHash>, GitError>) -> Result<Seq<GitHash>, GitErrorModel> {
    match r {
        Ok(v) => Ok(v@),
        Err(e) => Err(e.model()),
    }
}

/// Append the names that index `idx` lists to `out`.
fn idx_names(idx: &[u8], out: &mut Vec<GitHash>) -> (r: Result<(), GitError>)
    ensures
        r is Ok <==> spec_idx_names(idx@) is Ok,
        r matches Ok(_) ==> final(out)@ == old(out)@ + spec_idx_names(idx@)->Ok_0,
        r matches Err(e) ==> spec_idx_names(idx@) == Err::<Seq<GitHash>, GitErrorModel>(e.model()),
{
    if idx.len() < 8 || idx[0] != 0xff || idx[1] != 0x74 || idx[2] != 0x4f || idx[3] != 0x63 {
        proof {
            if idx@.len() >= 8 {
                assert(idx@.subrange(0, 4) != idx_magic()) by {
                    if idx@.subrange(0, 4) == idx_magic() {
                        assert(idx@.subrange(0, 4)[0] == idx@[0]);
                        assert(idx@.subrange(0, 4)[1] == idx@[1]);
                        assert(idx@.subrange(0, 4)[2] == idx@[2]);
                        assert(idx@.subrange(0, 4)[3] == idx@[3]);
                    }
                }
            }
        }
        return Err(GitError::InvalidObject(text("unsupported pack index")));
    }
    assert(idx@.subrange(0, 4) =~= idx_magic());
    match be_u32(idx, 4) {
        Ok(v) => {
            if v != 2 {
                return Err(GitError::InvalidObject(text("unsupported pack index")));
            }
        },
        Err(_) => {
            return Err(GitError::InvalidObject(text("unsupported pack index")));
        },
    }
    let count = match be_u32(idx, 1028) {
        Ok(c) => c,
        Err(e) => return Err(e),
    };
    if 1032 + (count as u64) * 20 > idx.len() as u64 {
        return Err(GitError::OutOfBounds);
    }
    let ghost start = out@;
    let ghost names = spec_idx_names(idx@)->Ok_0;
    let len = idx.len();
    assert(forall|j: int| 0 <= j < count ==> #[trigger] names[j] == hash_of_bytes(idx@.subrange(1032 + 20 * j, 1032 + 20 * j + 20)));
    let mut k: usize = 0;
    while k < count as usize
        invariant
            len == idx@.len(),
            forall|j: int| 0 <= j < count ==> #[trigger] names[j] == hash_of_bytes(idx@.subrange(1032 + 20 * j, 1032 + 20 * j + 20)),
            count as int == names.len(),
            1032 + count * 20 <= idx@.len(),
            names == spec_idx_names(idx@)->Ok_0,
            0 <= k <= count,
            out@ == start + names.take(k as int),
        decreases count - k,
    {
        assert(k * 20 < count * 20) by (nonlinear_arith)
            requires
                k < count,
        ;
        let off = 1032 + k * 20;
        let h = match GitHash::from_bytes(&idx[off..off + 20]) {
            Ok(h) => h,
            Err(e) => return Err(e),
        };
        proof {
            lemma_hash_of_bytes(h);
        }
        assert(h.0@ == idx@.subrange(off as int, off + 20));
        assert(names[k as int] == h);
        out.push(h);
        assert(names.take(k + 1) =~= names.take(k as int).push(h));
        k = k + 1;
    }
    assert(names.take(count as int) =~= names);
    Ok(())
}

/// Enumerate every packed object: the names of each pack index in turn
/// (`packs` in the order they are searched), nothing when `objects/pack`
/// cannot be listed.
///
/// # Errors
/// An index that cannot be read (`Io`), is not version 2 (`InvalidObject`)
/// or is shorter than its name table (`OutOfBounds`).
pub fn list_packed(packs: &Vec<PackFile>, pack_dir_readable: bool) -> (r: Result<Vec<GitHash>, GitError>)
    ensures
        names_result(r) == spec_list_packed(packs_model(packs@), pack_dir_readable),
{
    let ghost pm = packs_model(packs@);
    let mut out: Vec<GitHash> = Vec::new();
    if !pack_dir_readable {
        return Ok(out);
    }
    let mut i: usize = 0;
    assert(pm.take(0) =~= Seq::<PackModel>::empty());
    while i < packs.len()
        invariant
            pm == packs_model(packs@),
            pm.len() == packs@.len(),
            pack_dir_readable,
            0 <= i <= packs@.len(),
            packed_listing(pm.take(i as int)) == Ok::<Seq<GitHash>, GitErrorModel>(out@),
        decreases packs@.len() - i,
    {
        let p = &packs[i];
        assert(pm[i as int] == p.model());
        assert(pm.take(i + 1).drop_last() =~= pm.take(i as int));
        assert(pm.take(i + 1).last() == pm[i as int]);
        let idx = match &p.idx {
            FileData::Unreadable(m) => {
                proof {
                    assert(packed_listing(pm.take(i + 1)) == Err::<Seq<GitHash>, GitErrorModel>(GitErrorModel::Io));
                    lemma_packed_listing_err(pm, i + 1);
                }
                return Err(GitError::Io(m.clone()));
            },
            FileData::Bytes(b) => b,
        };
        match idx_names(idx.as_slice(), &mut out) {
            Ok(()) => {},
            Err(e) => {
                proof {
                    assert(packed_listing(pm.take(i + 1)) == Err::<Seq<GitHash>, GitErrorModel>(e.model()));
                    lemma_packed_listing_err(pm, i + 1);
                }
                return Err(e);
            },
        }
        i = i + 1;
    }
    assert(pm.take(pm.len() as int) =~= pm);
    Ok(out)
}

/// Once the listing of the first `n` indexes fails, the whole listing fails
/// the same way.
proof fn lemma_packed_listing_err(s: Seq<PackModel>, n: int)
    requires
        0 <= n <= s.len(),
        packed_listing(s.take(n)) is Err,
    ensures
        packed_listing(s) == packed_listing(s.take(n)),
    decreases s.len() - n,
{
    if n < s.len() {
        assert(s.take(n + 1).drop_last() =~= s.take(n));
        lemma_packed_listing_err(s, n + 1);
    } else {
        assert(s.take(n) =~= s);
    }
}

} // verus!

//! A repository: an in-memory image of a `.git` directory's files, and the
//! reads that navigate it (objects, commits, trees, blobs, refs, reflogs).
use vstd::prelude::*;
use vstd::utf8::*;
use vstd::string::StringSliceAdditionalSpecFns;

use crate::error::{GitError, GitErrorModel};
use crate::hash::{
    hash_of_bytes, hex_encode, is_lower_hex_digit, lemma_hash_eq,
    lemma_hex_decode_encode, lemma_hex_encode_decode, GitHash,
};
use crate::files::{
    files_model, first_loose, lemma_first_loose,
    loose_matches, loose_model, packs_model, FileData, LooseFile, LooseModel, PackFile, PackModel,
    RepoFile, RepoFiles, RepoModel,
};
use crate::index::HashIndex;
use crate::seqs::{first_occurrences, lemma_first_occurrences, lemma_push_contains};
use crate::loose::{decompress_and_parse, list_loose, loose_listing, spec_read_loose};
use crate::object::{ObjectKind, RawModel, RawObject};
use crate::pack::{
    apply_delta, idx_lookup, inflate, kind_from_type, kind_of_type, parse_object_header,
    parse_ofs_delta, spec_apply_delta, spec_idx_lookup, spec_inflate, spec_object_header,
    spec_ofs_delta, spec_verify, verify, MAX_DELTA_DEPTH, list_packed, names_result, spec_list_packed,
};
use crate::refs::{
    hash_result, head_name, list_refs, list_refs_checked, refs_model, refs_result, resolve,
    resolve_ref, spec_list_refs,
};
use crate::strings::{decimal_string, decimal_text, join, text};
use crate::commit::{spec_parse_commit, CommitModel, CommitObject};
use crate::tree::{entries_model, spec_tree_entries, TreeEntryModel, TreeObject};
use crate::reflog::{read_reflog, reflog_result, spec_read_reflog, ReflogEntry};

verus! {

/// `a` sorts no later than `b`, byte by byte from `i` on (as file names do).
pub open spec fn name_le(a: Seq<u8>, b: Seq<u8>, i: int) -> bool
    decreases a.len() - i,
{
    if i >= a.len() || i < 0 {
        true
    } else if i >= b.len() {
        false
    } else if a[i] < b[i] {
        true
    } else if a[i] > b[i] {
        false
    } else {
        name_le(a, b, i + 1)
    }
}

/// Where `x` goes among the name-sorted `s`, after every entry that sorts no
/// later than it.
pub open spec fn insert_pos(s: Seq<PackModel>, x: PackModel, k: int) -> int
    decreases s.len() - k,
{
    if k >= s.len() || k < 0 {
        s.len() as int
    } else if name_le(s[k].name, x.name, 0) {
        insert_pos(s, x, k + 1)
    } else {
        k
    }
}

/// The packs ordered by name, equal names keeping their order (a stable sort).
pub open spec fn sort_packs(s: Seq<PackModel>) -> Seq<PackModel>
    decreases s.len(),
{
    if s.len() == 0 {
        seq![]
    } else {
        let t = sort_packs(s.drop_last());
        let k = insert_pos(t, s.last(), 0);
        t.take(k) + seq![s.last()] + t.skip(k)
    }
}

pub open spec fn loose_map(s: Seq<LooseModel>, n: int) -> Map<GitHash, usize> {
    Map::new(|h: GitHash| first_loose(s, h, n) is Some, |h: GitHash| first_loose(s, h, n).unwrap() as usize)
}

/// An image of a `.git` directory.
pub struct GitRepo {
    files: Vec<RepoFile>,
    refs_unreadable: bool,
    loose: Vec<LooseFile>,
    loose_index: HashIndex,
    pack_dir_readable: bool,
    packs: Vec<PackFile>,
}

impl GitRepo {
    #[verifier::type_invariant]
    closed spec fn wf(&self) -> bool {
        &&& self.loose_index.wf()
        &&& self.loose_index.view() == loose_map(loose_model(self.loose@), self.loose@.len() as int)
    }

    /// The repository's files as plain values.
    pub closed spec fn view(&self) -> RepoModel {
        RepoModel {
            files: files_model(self.files@),
            refs_unreadable: self.refs_unreadable,
            loose: loose_model(self.loose@),
            pack_dir_readable: self.pack_dir_readable,
            packs: packs_model(self.packs@),
        }
    }
}

/// The object named by 40 lowercase hex digits split as a loose path.
fn loose_name_hash(e: &LooseFile) -> (r: Option<GitHash>)
    ensures
        forall|h: GitHash| loose_matches(e.model(), h) <==> r == Some(h),
{
    let d = e.dir.as_str().as_bytes();
    let n = e.name.as_str().as_bytes();
    let ghost em = e.model();
    if d.len() != 2 || n.len() != 38 {
        proof {
            assert forall|h: GitHash| !loose_matches(em, h) by {
                lemma_hex_encode_decode(h.0@);
            }
        }
        return None;
    }
    let mut t: Vec<u8> = Vec::new();
    t.push(d[0]);
    t.push(d[1]);
    let mut k: usize = 0;
    while k < 38
        invariant
            n@.len() == 38,
            0 <= k <= 38,
            t@ == d@ + n@.subrange(0, k as int),
        decreases 38 - k,
    {
        t.push(n[k]);
        k = k + 1;
        assert(t@ =~= d@ + n@.subrange(0, k as int));
    }
    assert(n@.subrange(0, 38) =~= n@);
    let mut i: usize = 0;
    while i < 40
        invariant
            t@.len() == 40,
            t@ == d@ + n@,
            d@ == em.dir,
            n@ == em.name,
            em == e.model(),
            0 <= i <= 40,
            forall|j: int| 0 <= j < i ==> #[trigger] is_lower_hex_digit(t@[j]),
        decreases 40 - i,
    {
        let c = t[i];
        if !((0x30 <= c && c <= 0x39) || (0x61 <= c && c <= 0x66)) {
            proof {
                assert forall|h: GitHash| !loose_matches(em, h) by {
                    lemma_hex_encode_decode(h.0@);
                    if loose_matches(em, h) {
                        let enc = hex_encode(h.0@);
                        assert(enc =~= enc.subrange(0, 2) + enc.subrange(2, 40));
                        assert(t@ =~= enc);
                        assert(is_lower_hex_digit(enc[i as int]));
                    }
                }
            }
            return None;
        }
        i = i + 1;
    }
    assert(t@.subrange(0, 40) =~= t@);
    match GitHash::parse_hex(t.as_slice(), 0, 40) {
        Some(h) => {
            proof {
                lemma_hex_decode_encode(t@);
                assert forall|g: GitHash| loose_matches(em, g) <==> Some(h) == Some(g) by {
                    lemma_hex_encode_decode(g.0@);
                    lemma_hash_eq(h, g);
                    if loose_matches(em, g) {
                        assert(t@ =~= hex_encode(g.0@));
                    }
                    if h == g {
                        assert(hex_encode(g.0@) == t@);
                        assert(t@.subrange(0, 2) =~= d@);
                        assert(t@.subrange(2, 40) =~= n@);
                    }
                }
            }
            Some(h)
        },
        None => {
            proof {
                assert(forall|j: int| 0 <= j < 40 ==> crate::hash::is_hex_digit(#[trigger] t@[j])) by {
                    assert forall|j: int| 0 <= j < 40 implies crate::hash::is_hex_digit(#[trigger] t@[j]) by {
                        assert(is_lower_hex_digit(t@[j]));
                    }
                }
            }
            None
        },
    }
}

fn build_loose_index(loose: &Vec<LooseFile>) -> (r: HashIndex)
    ensures
        r.wf(),
        r.view() == loose_map(loose_model(loose@), loose@.len() as int),
{
    let mut index = HashIndex::new();
    let ghost lm = loose_model(loose@);
    let mut i: usize = 0;
    proof {
        assert(index.view() =~= loose_map(lm, 0));
    }
    while i < loose.len()
        invariant
            lm == loose_model(loose@),
            0 <= i <= loose@.len(),
            index.wf(),
            index.view() == loose_map(lm, i as int),
        decreases loose@.len() - i,
    {
        let e = &loose[i];
        assert(lm[i as int] == e.model());
        match loose_name_hash(e) {
            Some(h) => {
                if index.get(&h).is_none() {
                    index.insert(h, i);
                    proof {
                        assert forall|g: GitHash| #[trigger] first_loose(lm, g, i + 1) == (if g == h {
                            Some(i as int)
                        } else {
                            first_loose(lm, g, i as int)
                        }) by {
                            if g == h {
                                assert(first_loose(lm, g, i as int) is None);
                            }
                        }
                        assert(index.view() =~= loose_map(lm, i + 1));
                    }
                } else {
                    proof {
                        assert forall|g: GitHash| #[trigger] first_loose(lm, g, i + 1) == first_loose(
                            lm,
                            g,
                            i as int,
                        ) by {
                            if g == h {
                                assert(first_loose(lm, g, i as int) is Some);
                            }
                        }
                        assert(index.view() =~= loose_map(lm, i + 1));
                    }
                }
            },
            None => {
                proof {
                    assert forall|g: GitHash| #[trigger] first_loose(lm, g, i + 1) == first_loose(
                        lm,
                        g,
                        i as int,
                    ) by {}
                    assert(index.view() =~= loose_map(lm, i + 1));
                }
            },
        }
        i = i + 1;
    }
    index
}

/// `a` sorts no later than `b`.
fn name_le_exec(a: &str, b: &str) -> (r: bool)
    ensures
        r == name_le(a.spec_bytes(), b.spec_bytes(), 0),
{
    let x = a.as_bytes();
    let y = b.as_bytes();
    let mut i: usize = 0;
    while i < x.len()
        invariant
            x@ == a.spec_bytes(),
            y@ == b.spec_bytes(),
            0 <= i <= x@.len(),
            name_le(x@, y@, i as int) == name_le(x@, y@, 0),
        decreases x@.len() - i,
    {
        if i >= y.len() {
            return false;
        }
        if x[i] < y[i] {
            return true;
        }
        if x[i] > y[i] {
            return false;
        }
        i = i + 1;
    }
    true
}

/// Order the packs by name, as a sort of their paths does.
fn sort_pack_files(v: Vec<PackFile>) -> (r: Vec<PackFile>)
    ensures
        packs_model(r@) == sort_packs(packs_model(v@)),
{
    let mut input = v;
    let ghost all = packs_model(input@);
    let mut out: Vec<PackFile> = Vec::new();
    let ghost mut taken: int = 0;
    let ghost total = input@.len();
    while input.len() > 0
        invariant
            all.len() == total,
            0 <= taken,
            taken + input@.len() == total,
            packs_model(input@) == all.skip(taken),
            packs_model(out@) == sort_packs(all.take(taken)),
        decreases input@.len(),
    {
        let ghost old_in = input@;
        let x = input.remove(0);
        let ghost xm = x.model();
        proof {
            assert(input@ =~= old_in.subrange(1, old_in.len() as int));
            assert(packs_model(old_in)[0] == xm);
            assert(packs_model(old_in) == all.skip(taken));
            assert(all.skip(taken)[0] == all[taken]);
            assert forall|j: int| 0 <= j < input@.len() implies #[trigger] packs_model(input@)[j]
                == all.skip(taken + 1)[j] by {
                assert(input@[j] == old_in[j + 1]);
                assert(packs_model(old_in)[j + 1] == all.skip(taken)[j + 1]);
            }
            assert(packs_model(input@) =~= all.skip(taken + 1));
        }
        let mut k: usize = 0;
        let ghost om = packs_model(out@);
        loop
            invariant
                om == packs_model(out@),
                xm == x.model(),
                0 <= k <= out@.len(),
                insert_pos(om, xm, k as int) == insert_pos(om, xm, 0),
            ensures
                insert_pos(om, xm, 0) == k,
            decreases out@.len() - k,
        {
            if k >= out.len() {
                break;
            }
            let le = name_le_exec(out[k].name.as_str(), x.name.as_str());
            assert(om[k as int] == out@[k as int].model());
            if !le {
                break;
            }
            k = k + 1;
        }
        out.insert(k, x);
        proof {
            let t = all.take(taken);
            assert(all.take(taken + 1).drop_last() =~= t);
            assert(all.take(taken + 1).last() == xm);
            assert(packs_model(out@) =~= om.take(k as int) + seq![xm] + om.skip(k as int));
        }
        proof {
            taken = taken + 1;
        }
    }
    assert(all.take(total as int) =~= all);
    out
}

/// How far a delta chain at `depth` may still go.
pub open spec fn depth_measure(depth: int) -> int {
    if 0 <= depth <= MAX_DELTA_DEPTH {
        MAX_DELTA_DEPTH + 1 - depth
    } else {
        0
    }
}

/// The object at `offset` of `pack`, with its deltas resolved: a base object
/// (types 1..=4) is inflated; an `OFS_DELTA` (6) applies its delta to the
/// object at the given distance before it; a `REF_DELTA` (7) applies its
/// delta to the object named by the 20 bytes after its header, read from
/// the store. A chain of more than [`MAX_DELTA_DEPTH`] deltas is refused.
pub open spec fn spec_object_at(m: RepoModel, pack: Seq<u8>, offset: int, depth: int) -> Result<
    (ObjectKind, Seq<u8>),
    GitErrorModel,
>
    decreases depth_measure(depth), 0int, 0int,
{
    if depth > MAX_DELTA_DEPTH || depth < 0 {
        Err(GitErrorModel::InvalidObject("delta chain too deep"@))
    } else if offset > usize::MAX || offset < 0 {
        Err(GitErrorModel::OutOfBounds)
    } else {
        match spec_object_header(pack, offset) {
            Err(k) => Err(k),
            Ok((t, body)) => {
                if 1 <= t <= 4 {
                    match spec_inflate(pack, body) {
                        Err(k) => Err(k),
                        Ok(d) => Ok((kind_of_type(t).unwrap(), d)),
                    }
                } else if t == 6 {
                    match spec_ofs_delta(pack, body) {
                        Err(k) => Err(k),
                        Ok((back, ds)) => {
                            if back > offset {
                                Err(GitErrorModel::OutOfBounds)
                            } else {
                                match spec_object_at(m, pack, offset - back, depth + 1) {
                                    Err(k) => Err(k),
                                    Ok((kind, base)) => match spec_inflate(pack, ds) {
                                        Err(k) => Err(k),
                                        Ok(delta) => match spec_apply_delta(base, delta) {
                                            Err(k) => Err(k),
                                            Ok(o) => Ok((kind, o)),
                                        },
                                    },
                                }
                            }
                        },
                    }
                } else if t == 7 {
                    if body + 20 > pack.len() {
                        Err(GitErrorModel::OutOfBounds)
                    } else {
                        match spec_inflate(pack, body + 20) {
                            Err(k) => Err(k),
                            Ok(delta) => match spec_resolve_base(
                                m,
                                hash_of_bytes(pack.subrange(body, body + 20)),
                                depth + 1,
                            ) {
                                Err(k) => Err(k),
                                Ok((kind, base)) => match spec_apply_delta(base, delta) {
                                    Err(k) => Err(k),
                                    Ok(o) => Ok((kind, o)),
                                },
                            },
                        }
                    }
                } else {
                    Err(GitErrorModel::InvalidObject("unknown pack object type "@ + decimal_text(t as nat)))
                }
            },
        }
    }
}

/// A `REF_DELTA` base: from a pack if one holds it, else loose.
pub open spec fn spec_resolve_base(m: RepoModel, h: GitHash, depth: int) -> Result<
    (ObjectKind, Seq<u8>),
    GitErrorModel,
>
    decreases depth_measure(depth), 3int, 0int,
{
    if depth > MAX_DELTA_DEPTH || depth < 0 {
        Err(GitErrorModel::InvalidObject("delta chain too deep"@))
    } else {
        match spec_packed(m, h, depth) {
            Err(k) => Err(k),
            Ok(Some(o)) => Ok((o.kind, o.data)),
            Ok(None) => match spec_read_loose(m.loose, h) {
                Err(k) => Err(k),
                Ok(o) => Ok((o.kind, o.data)),
            },
        }
    }
}

/// Object `h` from the first pack (by name) whose index holds it, or `None`
/// when none does or the pack directory could not be listed.
pub open spec fn spec_packed(m: RepoModel, h: GitHash, depth: int) -> Result<
    Option<RawModel>,
    GitErrorModel,
>
    decreases depth_measure(depth), 2int, 0int,
{
    if !m.pack_dir_readable {
        Ok(None)
    } else {
        spec_packs_from(m, h, depth, 0)
    }
}

pub open spec fn spec_packs_from(m: RepoModel, h: GitHash, depth: int, i: int) -> Result<
    Option<RawModel>,
    GitErrorModel,
>
    decreases depth_measure(depth), 1int, m.packs.len() - i,
{
    if i >= m.packs.len() || i < 0 {
        Ok(None)
    } else {
        match m.packs[i].idx {
            None => Err(GitErrorModel::Io),
            Some(idx) => match spec_idx_lookup(idx, h) {
                Err(k) => Err(k),
                Ok(None) => spec_packs_from(m, h, depth, i + 1),
                Ok(Some(off)) => match m.packs[i].pack {
                    Some(Some(pack)) => match spec_object_at(m, pack, off, depth) {
                        Err(k) => Err(k),
                        Ok((kind, data)) => Ok(
                            Some(RawModel { kind, data, verified: spec_verify(h, kind, data) }),
                        ),
                    },
                    _ => Err(GitErrorModel::Io),
                },
            },
        }
    }
}

/// Object `h`: loose if a loose file holds it, else from the packs.
pub open spec fn spec_read_object(m: RepoModel, h: GitHash) -> Result<RawModel, GitErrorModel> {
    match spec_read_loose(m.loose, h) {
        Err(GitErrorModel::ObjectNotFound(h2)) => match spec_packed(m, h, 0) {
            Err(k) => Err(k),
            Ok(Some(o)) => Ok(o),
            Ok(None) => Err(GitErrorModel::ObjectNotFound(h2)),
        },
        r => r,
    }
}

pub open spec fn pair_model(r: Result<(ObjectKind, Vec<u8>), GitError>) -> Result<(ObjectKind, Seq<u8>), GitErrorModel> {
    match r {
        Ok((k, d)) => Ok((k, d@)),
        Err(e) => Err(e.model()),
    }
}

pub open spec fn raw_result(r: Result<RawObject, GitError>) -> Result<RawModel, GitErrorModel> {
    match r {
        Ok(o) => Ok(o.model()),
        Err(e) => Err(e.model()),
    }
}

pub open spec fn opt_raw_result(r: Result<Option<RawObject>, GitError>) -> Result<Option<RawModel>, GitErrorModel> {
    match r {
        Ok(Some(o)) => Ok(Some(o.model())),
        Ok(None) => Ok(None),
        Err(e) => Err(e.model()),
    }
}

impl GitRepo {
    /// Read a loose object file, found through the index of loose names.
    fn loose_object(&self, hash: &GitHash) -> (r: Result<RawObject, GitError>)
        ensures
            raw_result(r) == spec_read_loose(self@.loose, *hash),
    {
        proof {
            use_type_invariant(self);
            assert(loose_model(self.loose@).len() == self.loose@.len());
        }
        let ghost m = self@;
        let n = self.loose.len();
        match self.loose_index.get(hash) {
            None => {
                assert(first_loose(m.loose, *hash, m.loose.len() as int) is None);
                Err(GitError::ObjectNotFound(*hash))
            },
            Some(i) => {
                proof {
                    lemma_first_loose(loose_model(self.loose@), *hash, self.loose@.len() as int);
                    let k = first_loose(m.loose, *hash, m.loose.len() as int).unwrap();
                    assert(loose_map(m.loose, n as int)[*hash] == k as usize);
                    assert(0 <= k < n);
                }
                assert(first_loose(m.loose, *hash, m.loose.len() as int) == Some(i as int));
                assert(loose_model(self.loose@)[i as int] == self.loose@[i as int].model());
                match &self.loose[i].data {
                    FileData::Unreadable(m) => Err(GitError::Io(m.clone())),
                    FileData::Bytes(b) => {
                        assert(m.loose[i as int].data == Some(b@));
                        decompress_and_parse(hash, b.as_slice())
                    },
                }
            },
        }
    }

    /// Read and fully resolve the object at `offset` in `pack`.
    fn read_object_at(&self, pack: &[u8], offset: u64, depth: u32) -> (r: Result<(ObjectKind, Vec<u8>), GitError>)
        ensures
            pair_model(r) == spec_object_at(self@, pack@, offset as int, depth as int),
        decreases depth_measure(depth as int), 0int, 0int,
    {
        if depth > MAX_DELTA_DEPTH {
            return Err(GitError::InvalidObject(text("delta chain too deep")));
        }
        if offset > usize::MAX as u64 {
            return Err(GitError::OutOfBounds);
        }
        let off = offset as usize;
        let (type_id, body) = match parse_object_header(pack, off) {
            Ok(x) => x,
            Err(e) => return Err(e),
        };
        if 1 <= type_id && type_id <= 4 {
            let kind = match kind_from_type(type_id) {
                Ok(k) => k,
                Err(e) => return Err(e),
            };
            match inflate(pack, body) {
                Ok(d) => Ok((kind, d)),
                Err(e) => Err(e),
            }
        } else if type_id == 6 {
            let (back, delta_start) = match parse_ofs_delta(pack, body) {
                Ok(x) => x,
                Err(e) => return Err(e),
            };
            if back > off {
                return Err(GitError::OutOfBounds);
            }
            let (kind, base) = match self.read_object_at(pack, (off - back) as u64, depth + 1) {
                Ok(x) => x,
                Err(e) => return Err(e),
            };
            let delta = match inflate(pack, delta_start) {
                Ok(d) => d,
                Err(e) => return Err(e),
            };
            match apply_delta(base.as_slice(), delta.as_slice()) {
                Ok(o) => Ok((kind, o)),
                Err(e) => Err(e),
            }
        } else if type_id == 7 {
            if body > pack.len() || pack.len() - body < 20 {
                return Err(GitError::OutOfBounds);
            }
            let base_hash = match GitHash::from_bytes(&pack[body..body + 20]) {
                Ok(h) => h,
                Err(e) => return Err(e),
            };
            proof {
                assert(exists|a: [u8; 20]| a@ == pack@.subrange(body as int, body + 20)) by {
                    assert(base_hash.0@ == pack@.subrange(body as int, body + 20));
                }
                let a = choose|a: [u8; 20]| a@ == pack@.subrange(body as int, body + 20);
                vstd::array::axiom_array_ext_equal(a, base_hash.0);
            }
            let delta = match inflate(pack, body + 20) {
                Ok(d) => d,
                Err(e) => return Err(e),
            };
            let (kind, base) = match self.resolve_base(&base_hash, depth + 1) {
                Ok(x) => x,
                Err(e) => return Err(e),
            };
            match apply_delta(base.as_slice(), delta.as_slice()) {
                Ok(o) => Ok((kind, o)),
                Err(e) => Err(e),
            }
        } else {
            Err(GitError::InvalidObject(join(text("unknown pack object type "), decimal_string(type_id as u64).as_str())))
        }
    }

    /// Resolve a `REF_DELTA` base by hash: it may live in a pack or as a loose
    /// object.
    fn resolve_base(&self, hash: &GitHash, depth: u32) -> (r: Result<(ObjectKind, Vec<u8>), GitError>)
        ensures
            pair_model(r) == spec_resolve_base(self@, *hash, depth as int),
        decreases depth_measure(depth as int), 3int, 0int,
    {
        if depth > MAX_DELTA_DEPTH {
            return Err(GitError::InvalidObject(text("delta chain too deep")));
        }
        match self.read_packed_at(hash, depth) {
            Err(e) => Err(e),
            Ok(Some(o)) => Ok((o.kind, o.data)),
            Ok(None) => match self.loose_object(hash) {
                Err(e) => Err(e),
                Ok(o) => Ok((o.kind, o.data)),
            },
        }
    }

    fn read_packed_at(&self, hash: &GitHash, depth: u32) -> (r: Result<Option<RawObject>, GitError>)
        ensures
            opt_raw_result(r) == spec_packed(self@, *hash, depth as int),
        decreases depth_measure(depth as int), 2int, 0int,
    {
        if !self.pack_dir_readable {
            return Ok(None);
        }
        let ghost m = self@;
        let mut i: usize = 0;
        while i < self.packs.len()
            invariant
                m == self@,
                m.pack_dir_readable,
                0 <= i <= self.packs@.len(),
                spec_packed(m, *hash, depth as int) == spec_packs_from(m, *hash, depth as int, i as int),
            decreases self.packs@.len() - i,
        {
            let p = &self.packs[i];
            assert(m.packs[i as int] == p.model());
            let idx = match &p.idx {
                FileData::Unreadable(m) => return Err(GitError::Io(m.clone())),
                FileData::Bytes(b) => b,
            };
            match idx_lookup(idx.as_slice(), hash) {
                Err(e) => return Err(e),
                Ok(None) => {},
                Ok(Some(offset)) => {
                    let pack = match &p.pack {
                        Some(FileData::Bytes(b)) => b,
                        Some(FileData::Unreadable(m)) => return Err(GitError::Io(m.clone())),
                        None => return Err(GitError::Io(text("pack file missing"))),
                    };
                    let (kind, data) = match self.read_object_at(pack.as_slice(), offset, depth) {
                        Ok(x) => x,
                        Err(e) => return Err(e),
                    };
                    let verified = verify(hash, kind, data.as_slice());
                    return Ok(Some(RawObject { kind, data, verified }));
                },
            }
            i = i + 1;
        }
        Ok(None)
    }

    /// Read `hash` from any packfile. Returns `Ok(None)` when no pack contains
    /// it (so the caller can report a genuine not-found).
    pub fn read_packed(&self, hash: &GitHash) -> (r: Result<Option<RawObject>, GitError>)
        ensures
            opt_raw_result(r) == spec_packed(self@, *hash, 0),
    {
        self.read_packed_at(hash, 0)
    }

    /// Read and verify an object by hash, from a loose file or a packfile.
    ///
    /// Loose objects are tried first; if absent, every packfile is searched
    /// (resolving `OFS_DELTA`/`REF_DELTA` chains). A truly missing object
    /// yields `ObjectNotFound`; an unsupported pack index yields the distinct
    /// `PackfileUnsupported`, never a misleading not-found.
    pub fn read_object(&self, hash: &GitHash) -> (r: Result<RawObject, GitError>)
        ensures
            raw_result(r) == spec_read_object(self@, *hash),
    {
        match self.loose_object(hash) {
            Err(GitError::ObjectNotFound(h)) => match self.read_packed(hash) {
                Err(e) => Err(e),
                Ok(Some(o)) => Ok(o),
                Ok(None) => Err(GitError::ObjectNotFound(h)),
            },
            other => other,
        }
    }
}

/// How a kind is written by `{:?}`: its variant's name.
pub open spec fn kind_debug(k: ObjectKind) -> Seq<char> {
    match k {
        ObjectKind::Commit => "Commit"@,
        ObjectKind::Tree => "Tree"@,
        ObjectKind::Blob => "Blob"@,
        ObjectKind::Tag => "Tag"@,
    }
}

/// What is said when the object `h` is of kind `k` where a `wanted` was
/// asked for.
pub open spec fn wrong_kind_message(h: GitHash, k: ObjectKind, wanted: Seq<char>) -> Seq<char> {
    decode_utf8(hex_encode(h.0@)) + " is a "@ + kind_debug(k) + ", not a "@ + wanted
}

fn kind_debug_text(k: ObjectKind) -> (r: &'static str)
    ensures
        r@ == kind_debug(k),
{
    match k {
        ObjectKind::Commit => "Commit",
        ObjectKind::Tree => "Tree",
        ObjectKind::Blob => "Blob",
        ObjectKind::Tag => "Tag",
    }
}

fn wrong_kind_error(h: &GitHash, k: ObjectKind, wanted: &str) -> (e: GitError)
    ensures
        e.model() == GitErrorModel::InvalidObject(wrong_kind_message(*h, k, wanted@)),
{
    let name = h.to_hex();
    proof {
        encode_utf8_decode_utf8(name@);
    }
    let m = join(name, " is a ");
    let m = join(m, kind_debug_text(k));
    let m = join(m, ", not a ");
    GitError::InvalidObject(join(m, wanted))
}

/// The commit named `h`: it must be stored, be a commit, and parse.
pub open spec fn spec_read_commit(m: RepoModel, h: GitHash) -> Result<CommitModel, GitErrorModel> {
    match spec_read_object(m, h) {
        Err(k) => Err(k),
        Ok(o) => {
            if o.kind != ObjectKind::Commit {
                Err(GitErrorModel::InvalidObject(wrong_kind_message(h, o.kind, "commit"@)))
            } else {
                spec_parse_commit(h, o.data)
            }
        },
    }
}

/// The entries of the tree named `h`: it must be stored, be a tree, and parse.
pub open spec fn spec_read_tree(m: RepoModel, h: GitHash) -> Result<Seq<TreeEntryModel>, GitErrorModel> {
    match spec_read_object(m, h) {
        Err(k) => Err(k),
        Ok(o) => {
            if o.kind != ObjectKind::Tree {
                Err(GitErrorModel::InvalidObject(wrong_kind_message(h, o.kind, "tree"@)))
            } else {
                spec_tree_entries(o.data, 0)
            }
        },
    }
}

/// The content of the blob named `h`: it must be stored and be a blob.
pub open spec fn spec_read_blob(m: RepoModel, h: GitHash) -> Result<Seq<u8>, GitErrorModel> {
    match spec_read_object(m, h) {
        Err(k) => Err(k),
        Ok(o) => {
            if o.kind != ObjectKind::Blob {
                Err(GitErrorModel::InvalidObject(wrong_kind_message(h, o.kind, "blob"@)))
            } else {
                Ok(o.data)
            }
        },
    }
}

pub open spec fn commit_result(r: Result<CommitObject, GitError>) -> Result<CommitModel, GitErrorModel> {
    match r {
        Ok(c) => Ok(c.model()),
        Err(e) => Err(e.model()),
    }
}

/// What one step yields: after an error the walk ends; it moves on only from
/// a commit with parents, to the first of them.
pub proof fn lemma_walk_step(m: RepoModel, h: GitHash)
    ensures
        walk_step(m, h).1 matches Some(p) ==> walk_step(m, h).0 matches Ok(c) && c.parents.len() > 0 && p
            == c.parents[0],
        walk_step(m, h).0 matches Ok(c) ==> (c.parents.len() > 0 <==> walk_step(m, h).1 is Some),
        walk_step(m, h).0 is Err ==> walk_step(m, h).1 is None,
{
    reveal(walk_step);
}

/// A step reads the pending commit.
proof fn lemma_walk_step_reads(m: RepoModel, h: GitHash)
    ensures
        walk_step(m, h).0 == spec_read_commit(m, h),
{
    reveal(walk_step);
}

/// What `n` successive `next` calls yield from a walk whose pending commit is
/// `p` (a call on an ended walk yields nothing).
pub open spec fn walk_items(m: RepoModel, p: Option<GitHash>, n: nat) -> Seq<Result<CommitModel, GitErrorModel>>
    decreases n,
{
    if n == 0 {
        seq![]
    } else {
        match p {
            None => seq![],
            Some(h) => seq![walk_step(m, h).0] + walk_items(m, walk_step(m, h).1, (n - 1) as nat),
        }
    }
}

/// The commits of a run of walk items, or the first error among them.
pub open spec fn collect_walk(items: Seq<Result<CommitModel, GitErrorModel>>) -> Result<Seq<CommitModel>, GitErrorModel>
    decreases items.len(),
{
    if items.len() == 0 {
        Ok(seq![])
    } else {
        match items[0] {
            Err(k) => Err(k),
            Ok(c) => match collect_walk(items.drop_first()) {
                Ok(rest) => Ok(seq![c] + rest),
                Err(k) => Err(k),
            },
        }
    }
}

/// The whole iteration of a commit walk started at `h` (`walk_commits`, then
/// successive `next` calls): at most `n` calls yield the commits of the
/// first-parent walk of `n` steps newest first, or end with its error; every
/// item but the last is a commit with a parent, so the walk ends right after
/// a commit without parents or right after the first error.
#[verifier::spinoff_prover]
pub proof fn law_walk_iteration(m: RepoModel, h: GitHash, n: nat)
    ensures
        collect_walk(walk_items(m, Some(h), n)) == first_parent_walk(m, h, n),
        walk_items(m, Some(h), n).len() <= n,
        forall|i: int|
            0 <= i < walk_items(m, Some(h), n).len() - 1 ==> (#[trigger] walk_items(m, Some(h), n)[i] matches Ok(
                c,
            ) && c.parents.len() > 0),
    decreases n,
{
    if n > 0 {
        let items = walk_items(m, Some(h), n);
        lemma_walk_step(m, h);
        let (first, nxt) = walk_step(m, h);
        match nxt {
            Some(p) => {
                law_walk_iteration(m, p, (n - 1) as nat);
                let rest = walk_items(m, Some(p), (n - 1) as nat);
                assert(items.drop_first() =~= rest);
                assert forall|i: int| 0 <= i < items.len() - 1 implies (#[trigger] items[i] matches Ok(c)
                    && c.parents.len() > 0) by {
                    if i > 0 {
                        assert(items[i] == rest[i - 1]);
                    }
                }
                assert(items[0] == first);
                if let Ok(c) = first {
                    match collect_walk(rest) {
                        Ok(r) => {
                            assert(collect_walk(items) == Ok::<Seq<CommitModel>, GitErrorModel>(seq![c] + r));
                        },
                        Err(k) => {
                            assert(collect_walk(items) == Err::<Seq<CommitModel>, GitErrorModel>(k));
                        },
                    }
                }
            },
            None => {
                assert(walk_items(m, None, (n - 1) as nat) =~= Seq::<Result<CommitModel, GitErrorModel>>::empty());
                assert(items =~= seq![first]);
                assert(items.drop_first() =~= Seq::<Result<CommitModel, GitErrorModel>>::empty());
                assert(collect_walk(items.drop_first()) == Ok::<Seq<CommitModel>, GitErrorModel>(seq![]));
                if let Ok(c) = first {
                    assert(seq![c] + Seq::<CommitModel>::empty() =~= seq![c]);
                }
            },
        }
    }
}

/// A chain of commits is the whole walk: `commit_chain` gives what the
/// successive `next` calls of `walk_commits` yield, up to a machine word of
/// steps.
pub proof fn law_chain_is_iteration(m: RepoModel, h: GitHash)
    ensures
        spec_walk(m, h) == collect_walk(walk_items(m, Some(h), usize::MAX as nat)),
{
    law_walk_iteration(m, h, usize::MAX as nat);
}

/// A walk down the first-parent chain of a repository's commits.
pub struct CommitWalker<'a> {
    repo: &'a GitRepo,
    next: Option<GitHash>,
}

impl<'a> CommitWalker<'a> {
    /// The commit the walk reads next, if it has not ended.
    pub closed spec fn pending(&self) -> Option<GitHash> {
        self.next
    }

    /// The repository walked.
    pub closed spec fn repo_model(&self) -> RepoModel {
        self.repo@
    }

    /// Read the pending commit and move to its first parent; after a commit
    /// without parents, or after an error (which is yielded once), the walk
    /// ends.
    pub fn next(&mut self) -> (r: Option<Result<CommitObject, GitError>>)
        ensures
            final(self).repo_model() == old(self).repo_model(),
            old(self).pending() is None ==> r is None && final(self).pending() is None,
            old(self).pending() matches Some(h) ==> r is Some && commit_result(r.unwrap()) == walk_step(
                old(self).repo_model(),
                h,
            ).0 && final(self).pending() == walk_step(old(self).repo_model(), h).1,
    {
        let hash = match self.next {
            Some(h) => h,
            None => return None,
        };
        self.next = None;
        proof {
            lemma_walk_step(self.repo@, hash);
            lemma_walk_step_reads(self.repo@, hash);
        }
        match self.repo.read_commit(&hash) {
            Ok(commit) => {
                if commit.parents.len() > 0 {
                    self.next = Some(commit.parents[0]);
                }
                Some(Ok(commit))
            },
            Err(e) => Some(Err(e)),
        }
    }
}

impl GitRepo {
    /// Read and parse a commit object.
    pub fn read_commit(&self, hash: &GitHash) -> (r: Result<CommitObject, GitError>)
        ensures
            commit_result(r) == spec_read_commit(self@, *hash),
    {
        let obj = match self.read_object(hash) {
            Ok(o) => o,
            Err(e) => return Err(e),
        };
        if obj.kind != ObjectKind::Commit {
            return Err(wrong_kind_error(hash, obj.kind, "commit"));
        }
        CommitObject::parse(*hash, obj.data.as_slice())
    }

    /// Read and parse a tree object.
    pub fn read_tree(&self, hash: &GitHash) -> (r: Result<TreeObject, GitError>)
        ensures
            r matches Ok(t) ==> t.hash == *hash && spec_read_tree(self@, *hash) == Ok::<Seq<TreeEntryModel>, GitErrorModel>(entries_model(t.entries@)),
            r matches Err(e) ==> spec_read_tree(self@, *hash) == Err::<Seq<TreeEntryModel>, GitErrorModel>(e.model()),
    {
        let obj = match self.read_object(hash) {
            Ok(o) => o,
            Err(e) => return Err(e),
        };
        if obj.kind != ObjectKind::Tree {
            return Err(wrong_kind_error(hash, obj.kind, "tree"));
        }
        TreeObject::parse(*hash, obj.data.as_slice())
    }

    /// Read a blob object and return its raw bytes.
    pub fn read_blob(&self, hash: &GitHash) -> (r: Result<Vec<u8>, GitError>)
        ensures
            r matches Ok(d) ==> spec_read_blob(self@, *hash) == Ok::<Seq<u8>, GitErrorModel>(d@),
            r matches Err(e) ==> spec_read_blob(self@, *hash) == Err::<Seq<u8>, GitErrorModel>(e.model()),
    {
        let obj = match self.read_object(hash) {
            Ok(o) => o,
            Err(e) => return Err(e),
        };
        if obj.kind != ObjectKind::Blob {
            return Err(wrong_kind_error(hash, obj.kind, "blob"));
        }
        Ok(obj.data)
    }

    /// Walk the commit ancestry chain, newest-first (first-parent only).
    pub fn walk_commits(&self, from: GitHash) -> (r: CommitWalker<'_>)
        ensures
            r.pending() == Some(from),
            r.repo_model() == self@,
    {
        CommitWalker { repo: self, next: Some(from) }
    }

    /// Read the reflog for `refname` (e.g. `"HEAD"`, `"refs/heads/main"`).
    ///
    /// Returns an empty vec when the log file is absent (git creates one only
    /// after the ref first moves), never an error for mere absence.
    pub fn reflog(&self, refname: &str) -> (r: Result<Vec<ReflogEntry>, GitError>)
        ensures
            reflog_result(r) == spec_read_reflog(self@.files, refname.spec_bytes()),
    {
        read_reflog(&self.files, refname)
    }
}

/// Every object in the store: the loose objects, then the packed ones, each
/// name once.
pub open spec fn spec_all_objects(m: RepoModel) -> Result<Seq<GitHash>, GitErrorModel> {
    match spec_list_packed(m.packs, m.pack_dir_readable) {
        Err(k) => Err(k),
        Ok(p) => Ok(first_occurrences(loose_listing(m.loose) + p)),
    }
}

impl GitRepo {
    /// Resolve HEAD to its commit hash.
    pub fn head(&self) -> (r: Result<GitHash, GitError>)
        ensures
            hash_result(r) == resolve(self@.files, head_name()),
    {
        let head = text("HEAD");
        proof {
            reveal_strlit("HEAD");
            vstd::utf8::is_ascii_chars_encode_utf8(head@);
            assert(encode_utf8(head@) =~= head_name());
        }
        resolve_ref(&self.files, head.as_str())
    }

    /// Resolve any ref name (e.g. `"HEAD"`, `"refs/heads/main"`, or a bare hex hash).
    pub fn resolve_ref(&self, name: &str) -> (r: Result<GitHash, GitError>)
        ensures
            hash_result(r) == resolve(self@.files, name.spec_bytes()),
    {
        resolve_ref(&self.files, name)
    }

    /// Every object in the store: the union of loose and packed objects, with
    /// duplicates removed (an object may be both loose and packed mid-`gc`).
    ///
    /// # Errors
    /// Propagates a [`GitError`] from packfile-index enumeration.
    pub fn all_objects(&self) -> (r: Result<Vec<GitHash>, GitError>)
        ensures
            names_result(r) == spec_all_objects(self@),
    {
        let mut all = list_loose(&self.loose);
        let mut packed = match list_packed(&self.packs, self.pack_dir_readable) {
            Ok(p) => p,
            Err(e) => return Err(e),
        };
        all.append(&mut packed);
        let ghost s = all@;
        let mut seen = HashIndex::new();
        let mut out: Vec<GitHash> = Vec::new();
        let mut k: usize = 0;
        assert(s.take(0) =~= Seq::<GitHash>::empty());
        while k < all.len()
            invariant
                s == all@,
                0 <= k <= s.len(),
                seen.wf(),
                forall|g: GitHash| seen.view().contains_key(g) <==> out@.contains(g),
                out@ == first_occurrences(s.take(k as int)),
            decreases s.len() - k,
        {
            let h = all[k];
            assert(s.take(k + 1).drop_last() =~= s.take(k as int));
            assert(s.take(k + 1).last() == h);
            if seen.get(&h).is_none() {
                let ghost before = out@;
                seen.insert(h, k);
                out.push(h);
                assert forall|g: GitHash| seen.view().contains_key(g) <==> out@.contains(g) by {
                    lemma_push_contains(before, h, g);
                }
            }
            k = k + 1;
        }
        assert(s.take(s.len() as int) =~= s);
        Ok(out)
    }

    /// Every ref in the repository as `(refname, target_hash)` pairs (loose
    /// `refs/**`, `packed-refs`, and `HEAD`).
    ///
    /// Best-effort: a refs-subsystem I/O failure degrades to no refs. Code that
    /// computes reachability from these roots must use
    /// [`Self::all_refs_checked`] instead, so a bootstrap failure cannot
    /// masquerade as "zero refs".
    pub fn all_refs(&self) -> (r: Vec<(String, GitHash)>)
        ensures
            refs_model(r@) == match spec_list_refs(self@.files, self@.refs_unreadable) {
                Ok(v) => v,
                Err(_) => seq![],
            },
    {
        list_refs(&self.files, self.refs_unreadable)
    }

    /// Like [`Self::all_refs`] but surfaces a ref-enumeration I/O failure as an
    /// error instead of silently returning fewer (or zero) refs.
    pub fn all_refs_checked(&self) -> (r: Result<Vec<(String, GitHash)>, GitError>)
        ensures
            refs_result(r) == spec_list_refs(self@.files, self@.refs_unreadable),
    {
        list_refs_checked(&self.files, self.refs_unreadable)
    }
}

/// Commits as plain values.
pub open spec fn commits_model(v: Seq<CommitObject>) -> Seq<CommitModel> {
    v.map_values(|c: CommitObject| c.model())
}

/// One step of the first-parent walk at `h`: the commit read (or the error
/// that reading it gave), and what the walk reads next — the commit's first
/// parent; nothing after a commit without parents or after an error.
#[verifier::opaque]
pub open spec fn walk_step(m: RepoModel, h: GitHash) -> (Result<CommitModel, GitErrorModel>, Option<GitHash>) {
    match spec_read_commit(m, h) {
        Ok(c) => (
            Ok(c),
            if c.parents.len() > 0 {
                Some(c.parents[0])
            } else {
                None
            },
        ),
        Err(k) => (Err(k), None),
    }
}

/// The first `n` steps of the first-parent walk from `h`: the commits read,
/// newest first, up to one without parents, or the error that ended it.
pub open spec fn first_parent_walk(m: RepoModel, h: GitHash, n: nat) -> Result<Seq<CommitModel>, GitErrorModel>
    decreases n,
{
    if n == 0 {
        Ok(seq![])
    } else {
        match walk_step(m, h).0 {
            Err(k) => Err(k),
            Ok(c) => match walk_step(m, h).1 {
                None => Ok(seq![c]),
                Some(p) => match first_parent_walk(m, p, (n - 1) as nat) {
                    Err(k) => Err(k),
                    Ok(rest) => Ok(seq![c] + rest),
                },
            },
        }
    }
}

/// The first-parent walk from `h`, as far as a machine word counts.
pub open spec fn spec_walk(m: RepoModel, h: GitHash) -> Result<Seq<CommitModel>, GitErrorModel> {
    first_parent_walk(m, h, usize::MAX as nat)
}

pub open spec fn commits_result(r: Result<Vec<CommitObject>, GitError>) -> Result<Seq<CommitModel>, GitErrorModel> {
    match r {
        Ok(v) => Ok(commits_model(v@)),
        Err(e) => Err(e.model()),
    }
}

/// `done` followed by the walk of `n` steps from `h`.
pub open spec fn walk_after(done: Seq<CommitModel>, m: RepoModel, h: GitHash, n: nat) -> Result<Seq<CommitModel>, GitErrorModel> {
    match first_parent_walk(m, h, n) {
        Ok(rest) => Ok(done + rest),
        Err(k) => Err(k),
    }
}

impl GitRepo {
    /// Every commit of the first-parent walk from `from`, newest first; the
    /// first read error ends it.
    pub fn commit_chain(&self, from: GitHash) -> (r: Result<Vec<CommitObject>, GitError>)
        ensures
            commits_result(r) == spec_walk(self@, from),
    {
        let mut out: Vec<CommitObject> = Vec::new();
        let mut walker = self.walk_commits(from);
        let mut budget: usize = usize::MAX;
        assert(commits_model(out@) =~= seq![]);
        assert(walk_after(commits_model(out@), self@, from, budget as nat) =~= spec_walk(self@, from)) by {
            match first_parent_walk(self@, from, budget as nat) {
                Ok(rest) => {
                    assert(commits_model(out@) + rest =~= rest);
                },
                Err(_) => {},
            }
        }
        loop
            invariant
                walker.repo_model() == self@,
                match walker.pending() {
                    Some(h) => walk_after(commits_model(out@), self@, h, budget as nat) == spec_walk(self@, from),
                    None => Ok::<Seq<CommitModel>, GitErrorModel>(commits_model(out@)) == spec_walk(self@, from),
                },
            decreases budget,
        {
            if budget == 0 {
                proof {
                    if let Some(h) = walker.pending() {
                        assert(commits_model(out@) + seq![] =~= commits_model(out@));
                    }
                }
                return Ok(out);
            }
            let ghost before = commits_model(out@);
            let ghost pending = walker.pending();
            match walker.next() {
                None => {
                    return Ok(out);
                },
                Some(Err(e)) => {
                    return Err(e);
                },
                Some(Ok(c)) => {
                    out.push(c);
                    proof {
                        let h = pending.unwrap();
                        assert(commits_model(out@) =~= before.push(c.model()));
                        match walker.pending() {
                            Some(p) => {
                                match first_parent_walk(self@, p, (budget - 1) as nat) {
                                    Ok(rest) => {
                                        assert(before + (seq![c.model()] + rest) =~= before.push(c.model()) + rest);
                                    },
                                    Err(_) => {},
                                }
                            },
                            None => {
                                assert(before + seq![c.model()] =~= before.push(c.model()));
                            },
                        }
                    }
                    budget = budget - 1;
                },
            }
        }
    }
}

/// The listing of all objects names each object once, and names exactly the
/// objects that a loose file or a pack index names.
pub proof fn law_all_objects_once(m: RepoModel)
    requires
        spec_all_objects(m) is Ok,
    ensures
        spec_all_objects(m)->Ok_0.no_duplicates(),
        forall|h: GitHash|
            #[trigger] spec_all_objects(m)->Ok_0.contains(h) <==> (loose_listing(m.loose).contains(h)
                || spec_list_packed(m.packs, m.pack_dir_readable)->Ok_0.contains(h)),
{
    let l = loose_listing(m.loose);
    let p = spec_list_packed(m.packs, m.pack_dir_readable)->Ok_0;
    lemma_first_occurrences(l + p);
    assert forall|h: GitHash| #[trigger] (l + p).contains(h) <==> (l.contains(h) || p.contains(h)) by {
        if (l + p).contains(h) {
            let k = choose|k: int| 0 <= k < (l + p).len() && (l + p)[k] == h;
            if k < l.len() {
                assert(l[k] == h);
            } else {
                assert(p[k - l.len()] == h);
            }
        }
        if l.contains(h) {
            let k = choose|k: int| 0 <= k < l.len() && l[k] == h;
            assert((l + p)[k] == h);
        }
        if p.contains(h) {
            let k = choose|k: int| 0 <= k < p.len() && p[k] == h;
            assert((l + p)[l.len() + k] == h);
        }
    }
}

impl GitRepo {
    /// Open a repository from the files of a directory: the directory itself
    /// when it holds `HEAD`, else its `.git` subdirectory when that holds
    /// `HEAD` (`None` stands for a directory without `HEAD`); `path` names the
    /// directory in the error for neither.
    pub fn open(path: &str, dir: Option<RepoFiles>, dot_git: Option<RepoFiles>) -> (r: Result<GitRepo, GitError>)
        ensures
            r is Ok <==> (dir is Some || dot_git is Some),
            r matches Err(e) ==> e.model() == GitErrorModel::InvalidObject("not a git repository: "@ + path@),
            r matches Ok(repo) ==> {
                let f = if dir is Some {
                    dir.unwrap()
                } else {
                    dot_git.unwrap()
                };
                repo@ == RepoModel {
                    files: files_model(f.files@),
                    refs_unreadable: f.refs_unreadable,
                    loose: loose_model(f.loose@),
                    pack_dir_readable: f.pack_dir_readable,
                    packs: sort_packs(packs_model(f.packs@)),
                }
            },
    {
        let f = match dir {
            Some(f) => f,
            None => match dot_git {
                Some(f) => f,
                None => return Err(GitError::InvalidObject(join(text("not a git repository: "), path))),
            },
        };
        let loose_index = build_loose_index(&f.loose);
        let packs = sort_pack_files(f.packs);
        Ok(
            GitRepo {
                files: f.files,
                refs_unreadable: f.refs_unreadable,
                loose: f.loose,
                loose_index,
                pack_dir_readable: f.pack_dir_readable,
                packs,
            },
        )
    }
}

} // verus!

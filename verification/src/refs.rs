//! Refs: the names (`HEAD`, `refs/heads/main`, ...) that point at objects,
//! stored loose as files under `refs/`, together in `packed-refs`, or
//! symbolically (`ref: refs/heads/main`).
use vstd::prelude::*;
use vstd::utf8::*;
use vstd::string::StringSliceAdditionalSpecFns;

use crate::error::{GitError, GitErrorModel};
use crate::files::{bytes_equal, file_slot, files_model, find_file, lemma_file_slot, FileData, FileModel, RepoFile};
use crate::hash::{hash_of_bytes, hex_decode, is_hash_text, lemma_hash_of_bytes, GitHash};
use crate::pack::append_range;
use crate::strings::{
    at_char_start, debug_text, join, lemma_char_start_zero, lemma_next_char_start, lemma_valid_cut,
    str_debug, string_of, text, utf8_error,
};
use crate::text::{
    find_byte, find_byte_exec, has_prefix, has_prefix_exec, lemma_skip_ws_back_char_start,
    lemma_skip_ws_char_start, line_at, line_at_exec, trim, trim_exec,
};

verus! {

/// `ref: `, the mark of a symbolic ref.
pub open spec fn symref_mark() -> Seq<u8> {
    seq![0x72u8, 0x65, 0x66, 0x3a, 0x20]
}

/// What ref `name` points at, following at most `fuel` symbolic refs: a name
/// of 40 hex digits stands for itself; any other name is the file of that
/// path, whose trimmed text is `ref: <target>` or 40 hex digits.
pub open spec fn spec_resolve_ref(files: Seq<FileModel>, name: Seq<u8>, fuel: nat) -> Result<GitHash, GitErrorModel>
    decreases fuel,
{
    if is_hash_text(name) {
        Ok(hash_of_bytes(hex_decode(name)))
    } else {
        match file_slot(files, name, files.len() as int) {
            None => Err(GitErrorModel::RefNotFound(decode_utf8(name))),
            Some(i) => match files[i].data {
                None => Err(GitErrorModel::Io),
                Some(b) => if !valid_utf8(b) {
                    Err(GitErrorModel::Io)
                } else {
                    let (lo, hi) = trim(b, 0, b.len() as int);
                    if has_prefix(b, lo, hi, symref_mark()) {
                        if fuel == 0 {
                            Err(GitErrorModel::RefNotFound("symbolic ref cycle"@))
                        } else {
                            spec_resolve_ref(files, b.subrange(lo + 5, hi), (fuel - 1) as nat)
                        }
                    } else if is_hash_text(b.subrange(lo, hi)) {
                        Ok(hash_of_bytes(hex_decode(b.subrange(lo, hi))))
                    } else {
                        Err(
                            GitErrorModel::RefNotFound(
                                decode_utf8(name) + ": invalid hash "@ + debug_text(decode_utf8(b.subrange(lo, hi))),
                            ),
                        )
                    }
                },
            },
        }
    }
}

/// What ref `name` points at. A chain of symbolic refs longer than the number
/// of files must pass some file twice, a cycle; it resolves to nothing.
pub open spec fn resolve(files: Seq<FileModel>, name: Seq<u8>) -> Result<GitHash, GitErrorModel> {
    spec_resolve_ref(files, name, files.len() as nat)
}
/// The target that ref `name` names symbolically (its file's trimmed text is
/// `ref: <target>`), if it does.
pub open spec fn symref_target(files: Seq<FileModel>, name: Seq<u8>) -> Option<Seq<u8>> {
    if is_hash_text(name) {
        None
    } else {
        match file_slot(files, name, files.len() as int) {
            None => None,
            Some(i) => match files[i].data {
                None => None,
                Some(b) => if !valid_utf8(b) {
                    None
                } else {
                    let (lo, hi) = trim(b, 0, b.len() as int);
                    if has_prefix(b, lo, hi, symref_mark()) {
                        Some(b.subrange(lo + 5, hi))
                    } else {
                        None
                    }
                },
            },
        }
    }
}

/// The name reached after `k` symbolic steps from `name`, if the chain gets
/// that far.
pub open spec fn ref_chain(files: Seq<FileModel>, name: Seq<u8>, k: nat) -> Option<Seq<u8>>
    decreases k,
{
    if k == 0 {
        Some(name)
    } else {
        match ref_chain(files, name, (k - 1) as nat) {
            Some(n) => symref_target(files, n),
            None => None,
        }
    }
}

/// Step `k` of the chain is a symbolic ref.
pub open spec fn chain_links(files: Seq<FileModel>, name: Seq<u8>, k: nat) -> bool {
    ref_chain(files, name, k) matches Some(n) && symref_target(files, n) is Some
}

proof fn lemma_resolve_unfold(files: Seq<FileModel>, name: Seq<u8>, fuel: nat)
    ensures
        symref_target(files, name) matches Some(t) ==> spec_resolve_ref(files, name, fuel) == if fuel == 0 {
            Err(GitErrorModel::RefNotFound("symbolic ref cycle"@))
        } else {
            spec_resolve_ref(files, t, (fuel - 1) as nat)
        },
        symref_target(files, name) is None ==> spec_resolve_ref(files, name, fuel) == spec_resolve_ref(
            files,
            name,
            0,
        ),
{
}

/// Following `t` symbolic links spends `t` of the fuel.
proof fn lemma_resolve_along(files: Seq<FileModel>, name: Seq<u8>, f: nat, t: nat)
    requires
        t <= f,
        forall|k: nat| k < t ==> #[trigger] chain_links(files, name, k),
    ensures
        ref_chain(files, name, t) is Some,
        spec_resolve_ref(files, name, f) == spec_resolve_ref(files, ref_chain(files, name, t).unwrap(), (f - t) as nat),
    decreases t,
{
    if t > 0 {
        lemma_resolve_along(files, name, f, (t - 1) as nat);
        assert(chain_links(files, name, (t - 1) as nat));
        let n = ref_chain(files, name, (t - 1) as nat).unwrap();
        lemma_resolve_unfold(files, n, (f - (t - 1)) as nat);
    }
}

/// Where the chain first stops within `n` steps, if it does.
proof fn lemma_first_stop(files: Seq<FileModel>, name: Seq<u8>, n: nat) -> (r: Option<nat>)
    ensures
        r matches Some(t) ==> t <= n && ref_chain(files, name, t) is Some && !chain_links(files, name, t)
            && forall|k: nat| k < t ==> #[trigger] chain_links(files, name, k),
        r is None ==> forall|k: nat| k <= n ==> #[trigger] chain_links(files, name, k),
    decreases n,
{
    if n == 0 {
        if chain_links(files, name, 0) {
            None
        } else {
            Some(0)
        }
    } else {
        match lemma_first_stop(files, name, (n - 1) as nat) {
            Some(t) => Some(t),
            None => {
                if chain_links(files, name, n) {
                    None
                } else {
                    assert(ref_chain(files, name, n) is Some) by {
                        assert(chain_links(files, name, (n - 1) as nat));
                    }
                    Some(n)
                }
            },
        }
    }
}

/// Once two steps of the chain meet, it repeats.
proof fn lemma_chain_repeats(files: Seq<FileModel>, name: Seq<u8>, a: nat, b: nat, j: nat)
    requires
        ref_chain(files, name, a) == ref_chain(files, name, b),
    ensures
        ref_chain(files, name, a + j) == ref_chain(files, name, b + j),
    decreases j,
{
    if j > 0 {
        lemma_chain_repeats(files, name, a, b, (j - 1) as nat);
        assert(ref_chain(files, name, a + j) == match ref_chain(files, name, (a + j - 1) as nat) {
            Some(n) => symref_target(files, n),
            None => None,
        });
        assert(ref_chain(files, name, b + j) == match ref_chain(files, name, (b + j - 1) as nat) {
            Some(n) => symref_target(files, n),
            None => None,
        });
    }
}

/// A chain that links for more steps than there are files meets itself.
proof fn lemma_chain_meets(files: Seq<FileModel>, name: Seq<u8>) -> (r: (nat, nat))
    requires
        forall|k: nat| k <= files.len() ==> #[trigger] chain_links(files, name, k),
    ensures
        r.0 < r.1 <= files.len(),
        ref_chain(files, name, r.0) == ref_chain(files, name, r.1),
{
    let n = files.len() as int;
    let slots = Seq::new(
        (n + 1) as nat,
        |k: int| file_slot(files, ref_chain(files, name, k as nat).unwrap(), n).unwrap(),
    );
    assert forall|k: int| 0 <= k <= n implies 0 <= #[trigger] slots[k] < n && files[slots[k]].path
        == ref_chain(files, name, k as nat).unwrap() by {
        assert(chain_links(files, name, k as nat));
        lemma_file_slot(files, ref_chain(files, name, k as nat).unwrap(), n);
    }
    if slots.no_duplicates() {
        slots.unique_seq_to_set();
        let range = vstd::set_lib::set_int_range(0, n);
        vstd::set_lib::lemma_int_range(0, n);
        assert(slots.to_set().subset_of(range)) by {
            assert forall|s: int| slots.to_set().contains(s) implies range.contains(s) by {
                let k = choose|k: int| 0 <= k < slots.len() && slots[k] == s;
            }
        }
        vstd::set_lib::lemma_len_subset(slots.to_set(), range);
        assert(false);
        (0, 1)
    } else {
        let (a, b) = choose|a: int, b: int| 0 <= a < slots.len() && 0 <= b < slots.len() && a != b && slots[a] == slots[b];
        assert(chain_links(files, name, a as nat) && chain_links(files, name, b as nat));
        if a < b {
            (a as nat, b as nat)
        } else {
            (b as nat, a as nat)
        }
    }
}

/// A chain that links for more steps than there are files links forever.
proof fn lemma_chain_forever(files: Seq<FileModel>, name: Seq<u8>, a: nat, b: nat, k: nat)
    requires
        a < b <= files.len(),
        ref_chain(files, name, a) == ref_chain(files, name, b),
        forall|i: nat| i <= files.len() ==> #[trigger] chain_links(files, name, i),
    ensures
        chain_links(files, name, k),
    decreases k,
{
    if k > files.len() {
        let d = (b - a) as nat;
        let j = (k - b) as nat;
        lemma_chain_repeats(files, name, a, b, j);
        lemma_chain_forever(files, name, a, b, (a + j) as nat);
        assert(b + j == k);
    } else {
        assert(chain_links(files, name, k));
    }
}

/// The bound on symbolic chains loses nothing: resolving with any fuel of at
/// least the number of files gives the same answer. A chain longer than that
/// passes some file twice and so never ends; every such fuel runs out on it.
pub proof fn law_resolve_fuel_enough(files: Seq<FileModel>, name: Seq<u8>, f: nat, g: nat)
    requires
        f >= files.len(),
        g >= files.len(),
    ensures
        spec_resolve_ref(files, name, f) == spec_resolve_ref(files, name, g),
{
    let n = files.len() as nat;
    match lemma_first_stop(files, name, n) {
        Some(t) => {
            lemma_resolve_along(files, name, f, t);
            lemma_resolve_along(files, name, g, t);
            let m = ref_chain(files, name, t).unwrap();
            lemma_resolve_unfold(files, m, (f - t) as nat);
            lemma_resolve_unfold(files, m, (g - t) as nat);
        },
        None => {
            let (a, b) = lemma_chain_meets(files, name);
            assert forall|k: nat| k < f implies #[trigger] chain_links(files, name, k) by {
                lemma_chain_forever(files, name, a, b, k);
            }
            assert forall|k: nat| k < g implies #[trigger] chain_links(files, name, k) by {
                lemma_chain_forever(files, name, a, b, k);
            }
            lemma_resolve_along(files, name, f, f);
            lemma_resolve_along(files, name, g, g);
            lemma_chain_forever(files, name, a, b, f);
            lemma_chain_forever(files, name, a, b, g);
            lemma_resolve_unfold(files, ref_chain(files, name, f).unwrap(), 0);
            lemma_resolve_unfold(files, ref_chain(files, name, g).unwrap(), 0);
        },
    }
}


pub open spec fn hash_result(r: Result<GitHash, GitError>) -> Result<GitHash, GitErrorModel> {
    match r {
        Ok(h) => Ok(h),
        Err(e) => Err(e.model()),
    }
}

/// A ref name, as text.
fn ref_name_text(name: &Vec<u8>) -> (r: String)
    requires
        valid_utf8(name@),
    ensures
        r@ == decode_utf8(name@),
{
    assert(name@.subrange(0, name@.len() as int) =~= name@);
    let r = string_of(name.as_slice(), 0, name.len());
    proof {
        encode_utf8_decode_utf8(r@);
    }
    r
}

/// Resolve a ref name to its target hash, in the files of a `.git` directory.
///
/// Handles `HEAD` (symbolic or a detached commit hash), `refs/heads/<branch>`
/// and bare 40-hex strings.
pub fn resolve_ref(git_dir: &Vec<RepoFile>, refname: &str) -> (r: Result<GitHash, GitError>)
    ensures
        hash_result(r) == resolve(files_model(git_dir@), refname.spec_bytes()),
{
    let ghost fm = files_model(git_dir@);
    let src = refname.as_bytes();
    let mut name: Vec<u8> = Vec::new();
    append_range(&mut name, src, 0, src.len());
    assert(name@ =~= refname.spec_bytes());
    proof {
        encode_utf8_valid_utf8(refname@);
    }
    let mut fuel: usize = git_dir.len();
    let mark: [u8; 5] = [0x72u8, 0x65, 0x66, 0x3a, 0x20];
    assert(mark@ =~= symref_mark());
    loop
        invariant
            fm == files_model(git_dir@),
            fm.len() == git_dir@.len(),
            fuel <= git_dir@.len(),
            mark@ == symref_mark(),
            spec_resolve_ref(fm, name@, fuel as nat) == resolve(fm, refname.spec_bytes()),
            valid_utf8(name@),
        decreases fuel,
    {
        assert(name@.subrange(0, name@.len() as int) =~= name@);
        match GitHash::parse_hex(name.as_slice(), 0, name.len()) {
            Some(h) => {
                proof {
                    lemma_hash_of_bytes(h);
                }
                return Ok(h);
            },
            None => {},
        }
        let i = match find_file(git_dir, name.as_slice()) {
            None => return Err(GitError::RefNotFound(ref_name_text(&name))),
            Some(i) => i,
        };
        proof {
            lemma_file_slot(fm, name@, fm.len() as int);
        }
        assert(fm[i as int] == git_dir@[i as int].model());
        let b = match &git_dir[i].data {
            FileData::Unreadable(m) => return Err(GitError::Io(m.clone())),
            FileData::Bytes(b) => b,
        };
        if utf8_error(b.as_slice()).is_some() {
            return Err(GitError::Io(text("ref is not UTF-8")));
        }
        let (lo, hi) = trim_exec(b.as_slice(), 0, b.len());
        proof {
            lemma_char_start_zero(b@);
            lemma_skip_ws_char_start(b@, b@.len() as int, 0);
            lemma_skip_ws_back_char_start(b@, lo as int, b@.len() as int);
        }
        if has_prefix_exec(b.as_slice(), lo, hi, &mark) {
            if fuel == 0 {
                return Err(GitError::RefNotFound(text("symbolic ref cycle")));
            }
            proof {
                assert(b@.subrange(lo as int, lo + 5)[4] == b@[lo + 4]);
                assert(at_char_start(b@, lo + 4));
                lemma_next_char_start(b@, lo + 4, 1);
                lemma_valid_cut(b@, lo + 5, hi as int);
            }
            let mut next: Vec<u8> = Vec::new();
            append_range(&mut next, b.as_slice(), lo + 5, hi);
            assert(next@ =~= b@.subrange(lo + 5, hi as int));
            name = next;
            fuel = fuel - 1;
        } else {
            return match GitHash::parse_hex(b.as_slice(), lo, hi) {
                Some(h) => {
                    proof {
                        lemma_hash_of_bytes(h);
                    }
                    Ok(h)
                },
                None => {
                    proof {
                        lemma_valid_cut(b@, lo as int, hi as int);
                    }
                    let content = string_of(b.as_slice(), lo, hi);
                    proof {
                        encode_utf8_decode_utf8(content@);
                    }
                    let m = join(ref_name_text(&name), ": invalid hash ");
                    Err(GitError::RefNotFound(join(m, str_debug(content.as_str()).as_str())))
                },
            };
        }
    }
}


/// `(refname, target)` pairs as plain values.
pub open spec fn refs_model(v: Seq<(String, GitHash)>) -> Seq<(Seq<u8>, GitHash)> {
    v.map_values(|p: (String, GitHash)| (encode_utf8(p.0@), p.1))
}

pub open spec fn refs_result(r: Result<Vec<(String, GitHash)>, GitError>) -> Result<Seq<(Seq<u8>, GitHash)>, GitErrorModel> {
    match r {
        Ok(v) => Ok(refs_model(v@)),
        Err(e) => Err(e.model()),
    }
}

/// Some pair of `acc` is named `name`.
pub open spec fn has_name(acc: Seq<(Seq<u8>, GitHash)>, name: Seq<u8>) -> bool {
    exists|j: int| 0 <= j < acc.len() && #[trigger] acc[j].0 == name
}

/// `refs/`
pub open spec fn refs_dir() -> Seq<u8> {
    seq![0x72u8, 0x65, 0x66, 0x73, 0x2f]
}

/// `packed-refs`
pub open spec fn packed_refs_name() -> Seq<u8> {
    seq![0x70u8, 0x61, 0x63, 0x6b, 0x65, 0x64, 0x2d, 0x72, 0x65, 0x66, 0x73]
}

/// `HEAD`
pub open spec fn head_name() -> Seq<u8> {
    seq![0x48u8, 0x45, 0x41, 0x44]
}

/// The loose refs among `files[0..n]`, in order: each file under `refs/` that
/// resolves. One that resolves to nothing is skipped; the first failure to
/// read one is the result.
pub open spec fn loose_refs(files: Seq<FileModel>, n: int) -> Result<Seq<(Seq<u8>, GitHash)>, GitErrorModel>
    decreases n,
{
    if n <= 0 {
        Ok(seq![])
    } else {
        match loose_refs(files, n - 1) {
            Err(k) => Err(k),
            Ok(acc) => {
                let p = files[n - 1].path;
                if !has_prefix(p, 0, p.len() as int, refs_dir()) {
                    Ok(acc)
                } else {
                    match resolve(files, p) {
                        Ok(h) => Ok(acc.push((p, h))),
                        Err(GitErrorModel::RefNotFound(_)) => Ok(acc),
                        Err(k) => Err(k),
                    }
                }
            },
        }
    }
}

/// Once the listing of loose refs fails, it stays failed.
proof fn lemma_loose_refs_err(files: Seq<FileModel>, n: int, m: int)
    requires
        n <= m,
        loose_refs(files, n) is Err,
    ensures
        loose_refs(files, m) == loose_refs(files, n),
    decreases m - n,
{
    if m > n {
        lemma_loose_refs_err(files, n, m - 1);
    }
}

/// One line `t[lo0..hi0]` of `packed-refs` added to `acc`: trimmed, a line
/// `<sha> <refname>`; empty lines, `#` comments and `^` peel lines are
/// skipped, and so is a name that `acc` already holds (a loose ref shadows
/// the packed one) or a sha that is not 40 hex digits.
pub open spec fn packed_line(t: Seq<u8>, lo0: int, hi0: int, acc: Seq<(Seq<u8>, GitHash)>) -> Seq<(Seq<u8>, GitHash)> {
    let (lo, hi) = trim(t, lo0, hi0);
    if lo >= hi || t[lo] == 0x23 || t[lo] == 0x5e {
        acc
    } else {
        let sp = find_byte(t, hi, 0x20, lo);
        if sp >= hi || has_name(acc, t.subrange(sp + 1, hi)) {
            acc
        } else {
            let (a, b) = trim(t, lo, sp);
            if is_hash_text(t.subrange(a, b)) {
                let (na, nb) = trim(t, sp + 1, hi);
                acc.push((t.subrange(na, nb), hash_of_bytes(hex_decode(t.subrange(a, b)))))
            } else {
                acc
            }
        }
    }
}

/// The lines of `t` from `p` on, added to `acc` one by one.
pub open spec fn packed_lines(t: Seq<u8>, p: int, acc: Seq<(Seq<u8>, GitHash)>) -> Seq<(Seq<u8>, GitHash)>
    decreases t.len() - p,
{
    if p >= t.len() || p < 0 {
        acc
    } else {
        let (ce, next) = line_at(t, t.len() as int, p);
        if next <= p {
            acc
        } else {
            packed_lines(t, next, packed_line(t, p, ce, acc))
        }
    }
}

/// `acc` with the refs of `packed-refs` added, when that file exists.
pub open spec fn with_packed_refs(files: Seq<FileModel>, acc: Seq<(Seq<u8>, GitHash)>) -> Result<Seq<(Seq<u8>, GitHash)>, GitErrorModel> {
    match file_slot(files, packed_refs_name(), files.len() as int) {
        None => Ok(acc),
        Some(i) => match files[i].data {
            None => Err(GitErrorModel::Io),
            Some(b) => if !valid_utf8(b) {
                Err(GitErrorModel::Io)
            } else {
                Ok(packed_lines(b, 0, acc))
            },
        },
    }
}

/// Every ref: the loose refs, then those of `packed-refs` that no loose ref
/// shadows, then `HEAD` when it resolves and no ref of that name was listed.
/// A `refs/` that exists but cannot be walked, or a ref file that exists but
/// cannot be read, fails the whole listing.
pub open spec fn spec_list_refs(files: Seq<FileModel>, refs_unreadable: bool) -> Result<Seq<(Seq<u8>, GitHash)>, GitErrorModel> {
    if refs_unreadable {
        Err(GitErrorModel::Io)
    } else {
        match loose_refs(files, files.len() as int) {
            Err(k) => Err(k),
            Ok(acc) => match with_packed_refs(files, acc) {
                Err(k) => Err(k),
                Ok(acc2) => match resolve(files, head_name()) {
                    Ok(h) => Ok(
                        if has_name(acc2, head_name()) {
                            acc2
                        } else {
                            acc2.push((head_name(), h))
                        },
                    ),
                    Err(GitErrorModel::RefNotFound(_)) => Ok(acc2),
                    Err(k) => Err(k),
                },
            },
        }
    }
}

/// Whether a pair of `out` is named `t[lo..hi]`.
fn names_contain(out: &Vec<(String, GitHash)>, t: &[u8], lo: usize, hi: usize) -> (r: bool)
    requires
        lo <= hi <= t@.len(),
    ensures
        r == has_name(refs_model(out@), t@.subrange(lo as int, hi as int)),
{
    let ghost m = refs_model(out@);
    let want = &t[lo..hi];
    let mut j: usize = 0;
    while j < out.len()
        invariant
            m == refs_model(out@),
            m.len() == out@.len(),
            want@ == t@.subrange(lo as int, hi as int),
            0 <= j <= out@.len(),
            forall|k: int| 0 <= k < j ==> m[k].0 != want@,
        decreases out@.len() - j,
    {
        assert(m[j as int] == (encode_utf8(out@[j as int].0@), out@[j as int].1));
        if bytes_equal(out[j].0.as_str().as_bytes(), want) {
            assert(m[j as int].0 == want@);
            return true;
        }
        j = j + 1;
    }
    false
}

/// The loose refs of `git_dir`: every file under `refs/` that resolves.
fn collect_loose_refs_checked(git_dir: &Vec<RepoFile>) -> (r: Result<Vec<(String, GitHash)>, GitError>)
    ensures
        refs_result(r) == loose_refs(files_model(git_dir@), git_dir@.len() as int),
{
    let ghost fm = files_model(git_dir@);
    let prefix: [u8; 5] = [0x72u8, 0x65, 0x66, 0x73, 0x2f];
    assert(prefix@ =~= refs_dir());
    let mut out: Vec<(String, GitHash)> = Vec::new();
    let mut k: usize = 0;
    assert(refs_model(out@) =~= seq![]);
    while k < git_dir.len()
        invariant
            fm == files_model(git_dir@),
            fm.len() == git_dir@.len(),
            prefix@ == refs_dir(),
            0 <= k <= git_dir@.len(),
            loose_refs(fm, k as int) == Ok::<Seq<(Seq<u8>, GitHash)>, GitErrorModel>(refs_model(out@)),
        decreases git_dir@.len() - k,
    {
        let path = git_dir[k].path.as_str();
        let p = path.as_bytes();
        assert(fm[k as int].path == p@);
        if has_prefix_exec(p, 0, p.len(), &prefix) {
            match resolve_ref(git_dir, path) {
                Ok(h) => {
                    let ghost before = out@;
                    out.push((git_dir[k].path.clone(), h));
                    assert(refs_model(out@) =~= refs_model(before).push((p@, h)));
                },
                Err(GitError::RefNotFound(_)) => {},
                Err(e) => {
                    proof {
                        lemma_loose_refs_err(fm, k + 1, fm.len() as int);
                    }
                    return Err(e);
                },
            }
        }
        k = k + 1;
    }
    Ok(out)
}

/// Add the ref of line `t[lo0..hi0]` of `packed-refs` to `out`.
fn take_packed_line(t: &[u8], lo0: usize, hi0: usize, out: &mut Vec<(String, GitHash)>)
    requires
        lo0 <= hi0 <= t@.len(),
        valid_utf8(t@),
        at_char_start(t@, lo0 as int),
        at_char_start(t@, hi0 as int),
    ensures
        refs_model(final(out)@) == packed_line(t@, lo0 as int, hi0 as int, refs_model(old(out)@)),
{
    let (lo, hi) = trim_exec(t, lo0, hi0);
    if lo >= hi || t[lo] == 0x23 || t[lo] == 0x5e {
        return;
    }
    let sp = find_byte_exec(t, hi, 0x20, lo);
    if sp >= hi {
        return;
    }
    if names_contain(out, t, sp + 1, hi) {
        return;
    }
    let (a, b) = trim_exec(t, lo, sp);
    match GitHash::parse_hex(t, a, b) {
        Some(h) => {
            let (na, nb) = trim_exec(t, sp + 1, hi);
            proof {
                lemma_hash_of_bytes(h);
                lemma_skip_ws_char_start(t@, hi0 as int, lo0 as int);
                lemma_skip_ws_back_char_start(t@, lo as int, hi0 as int);
                assert(at_char_start(t@, sp as int));
                lemma_next_char_start(t@, sp as int, 1);
                lemma_skip_ws_char_start(t@, hi as int, sp + 1);
                lemma_skip_ws_back_char_start(t@, na as int, hi as int);
                lemma_valid_cut(t@, na as int, nb as int);
            }
            let name = string_of(t, na, nb);
            let ghost before = out@;
            out.push((name, h));
            assert(refs_model(out@) =~= refs_model(before).push((t@.subrange(na as int, nb as int), h)));
        },
        None => {},
    }
}

/// Add the refs of the `packed-refs` text `t` to `out`, line by line.
fn take_packed_lines(t: &[u8], out: &mut Vec<(String, GitHash)>)
    requires
        valid_utf8(t@),
    ensures
        refs_model(final(out)@) == packed_lines(t@, 0, refs_model(old(out)@)),
{
    let len = t.len();
    let mut p: usize = 0;
    proof {
        lemma_char_start_zero(t@);
    }
    while p < len
        invariant
            len == t@.len(),
            p <= len,
            valid_utf8(t@),
            at_char_start(t@, p as int),
            packed_lines(t@, 0, refs_model(old(out)@)) == packed_lines(t@, p as int, refs_model(out@)),
        decreases len - p,
    {
        let (ce, next) = line_at_exec(t, len, p);
        proof {
            assert(at_char_start(t@, ce as int));
            assert(at_char_start(t@, next as int)) by {
                if next < len {
                    assert(at_char_start(t@, next - 1));
                    lemma_next_char_start(t@, next - 1, 1);
                }
            }
        }
        take_packed_line(t, p, ce, out);
        p = next;
    }
}

/// Enumerate every ref in the files of a `.git` directory (`refs_unreadable`:
/// its `refs/` exists but could not be walked), failing loud on a
/// ref-enumeration I/O error instead of silently returning fewer refs: a
/// caller that computes reachability from these refs must not take a
/// bootstrap failure for "zero refs". A genuinely absent file is not an error.
///
/// Returns `(refname, target_hash)` pairs: the loose `refs/**`, then
/// `packed-refs` (`^` peel lines skipped, a loose ref shadowing a packed one),
/// then `HEAD` when it resolves.
pub fn list_refs_checked(git_dir: &Vec<RepoFile>, refs_unreadable: bool) -> (r: Result<Vec<(String, GitHash)>, GitError>)
    ensures
        refs_result(r) == spec_list_refs(files_model(git_dir@), refs_unreadable),
{
    let ghost fm = files_model(git_dir@);
    if refs_unreadable {
        return Err(GitError::Io(text("refs directory unreadable")));
    }
    let mut out = match collect_loose_refs_checked(git_dir) {
        Ok(v) => v,
        Err(e) => return Err(e),
    };
    let ghost acc = refs_model(out@);
    let packed: [u8; 11] = [0x70u8, 0x61, 0x63, 0x6b, 0x65, 0x64, 0x2d, 0x72, 0x65, 0x66, 0x73];
    assert(packed@ =~= packed_refs_name());
    match find_file(git_dir, &packed) {
        None => {},
        Some(i) => {
            proof {
                lemma_file_slot(fm, packed@, fm.len() as int);
            }
            assert(fm[i as int] == git_dir@[i as int].model());
            match &git_dir[i].data {
                FileData::Unreadable(m) => return Err(GitError::Io(m.clone())),
                FileData::Bytes(b) => {
                    if utf8_error(b.as_slice()).is_some() {
                        return Err(GitError::Io(text("packed-refs is not UTF-8")));
                    }
                    take_packed_lines(b.as_slice(), &mut out);
                },
            }
        },
    }
    assert(with_packed_refs(fm, acc) == Ok::<Seq<(Seq<u8>, GitHash)>, GitErrorModel>(refs_model(out@)));
    let head = text("HEAD");
    let hb: [u8; 4] = [0x48u8, 0x45, 0x41, 0x44];
    proof {
        reveal_strlit("HEAD");
        vstd::utf8::is_ascii_chars_encode_utf8(head@);
        assert(encode_utf8(head@) =~= head_name());
        assert(hb@ =~= head_name());
        assert(hb@.subrange(0, 4) =~= head_name());
    }
    match resolve_ref(git_dir, head.as_str()) {
        Ok(h) => {
            if !names_contain(&out, &hb, 0, 4) {
                let ghost before = out@;
                out.push((head, h));
                assert(refs_model(out@) =~= refs_model(before).push((head_name(), h)));
            }
        },
        Err(GitError::RefNotFound(_)) => {},
        Err(e) => return Err(e),
    }
    Ok(out)
}

/// Enumerate every ref, best-effort: a refs-subsystem I/O failure degrades to
/// no refs. Reachability callers must use [`list_refs_checked`] instead.
pub fn list_refs(git_dir: &Vec<RepoFile>, refs_unreadable: bool) -> (r: Vec<(String, GitHash)>)
    ensures
        refs_model(r@) == match spec_list_refs(files_model(git_dir@), refs_unreadable) {
            Ok(v) => v,
            Err(_) => seq![],
        },
{
    match list_refs_checked(git_dir, refs_unreadable) {
        Ok(v) => v,
        Err(_) => {
            let v: Vec<(String, GitHash)> = Vec::new();
            assert(refs_model(v@) =~= seq![]);
            v
        },
    }
}

} // verus!

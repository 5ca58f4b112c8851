//! Reflogs (`.git/logs/<ref>`): one line per movement of a ref,
//! `<old> <new> <name> <<email>> <unix_ts> <tz>\t<message>`.
use vstd::prelude::*;
use vstd::utf8::*;

use vstd::string::StringSliceAdditionalSpecFns;

use crate::error::{GitError, GitErrorModel};
use crate::files::{file_slot, files_model, find_file, lemma_file_slot, FileData, FileModel, RepoFile};
use crate::hash::{hex_decode, is_hash_text, GitHash};
use crate::pack::append_range;
use crate::text::{
    embeds, lemma_find_byte_before, lemma_find_byte_hit, lemma_find_byte_extend, lemma_find_byte_shift, lemma_line_at_shift,
    lemma_next_token_shift, lemma_skip_ws_back_shift, lemma_subrange_shift, lemma_trim_shift,
};
use crate::strings::{
    at_char_start, from_utf8_lossy_bytes, lemma_next_char_start, lemma_valid_cut, lossy_utf8,
    string_of, text,
};
use crate::text::{
    find_byte, find_byte_exec, lemma_skip_ws_back_bounds, lemma_skip_ws_back_char_start,
    lemma_skip_ws_char_start, lemma_token_end_char_start, line_at,
    line_at_exec, next_token, next_token_exec, parse_int, parse_int_exec, skip_ws_back,
    skip_ws_back_exec, trim, trim_exec,
};

verus! {

/// One reflog line: a single movement of a ref from `old` to `new`.
#[derive(Debug, Clone, PartialEq, Eq)]
pub struct ReflogEntry {
    /// The ref's value before the movement (all-zero for the very first write).
    pub old: GitHash,
    /// The ref's value after the movement.
    pub new: GitHash,
    /// Name of the committer who performed the movement.
    pub name: String,
    /// Email of the committer who performed the movement.
    pub email: String,
    /// Unix timestamp (seconds since epoch) of the movement.
    pub timestamp: i64,
    /// Timezone offset as recorded (e.g. `+0800`), kept verbatim.
    pub tz_offset: String,
    /// The operation message (e.g. `commit: x`, `reset: moving to HEAD~1`).
    pub message: String,
}

/// A reflog entry with its text fields as UTF-8 bytes.
pub struct ReflogModel {
    pub old: GitHash,
    pub new: GitHash,
    pub name: Seq<u8>,
    pub email: Seq<u8>,
    pub timestamp: i64,
    pub tz_offset: Seq<u8>,
    pub message: Seq<u8>,
}

impl ReflogEntry {
    pub open spec fn model(&self) -> ReflogModel {
        ReflogModel {
            old: self.old,
            new: self.new,
            name: encode_utf8(self.name@),
            email: encode_utf8(self.email@),
            timestamp: self.timestamp,
            tz_offset: encode_utf8(self.tz_offset@),
            message: encode_utf8(self.message@),
        }
    }
}

pub open spec fn entries_model(v: Seq<ReflogEntry>) -> Seq<ReflogModel> {
    v.map_values(|e: ReflogEntry| e.model())
}

/// `+0000`, the timezone recorded when a line gives none.
pub open spec fn utc_text() -> Seq<u8> {
    seq![0x2bu8, 0x30, 0x30, 0x30, 0x30]
}

/// The hash named by the 40 hex digits `t[a..b]`.
pub open spec fn hash_at(t: Seq<u8>, a: int, b: int) -> GitHash {
    choose|h: GitHash| h.0@ == hex_decode(t.subrange(a, b))
}

/// The entry that the line `t[lo..hi]` records, if it is well-formed: a tab
/// separates the identity prefix from the message; the email lies between the
/// first `<` and the next `>`; before the email (trailing whitespace removed)
/// come two space-separated 40-hex hashes and the name (trimmed); after it the
/// first whitespace-separated item is the timestamp and the second the
/// timezone (`+0000` when absent).
pub open spec fn spec_parse_line(t: Seq<u8>, lo: int, hi: int) -> Option<ReflogModel> {
    let tab = find_byte(t, hi, 0x09, lo);
    let es = find_byte(t, tab, 0x3c, lo);
    let ee = find_byte(t, tab, 0x3e, es);
    if tab >= hi || es >= tab || ee >= tab {
        None
    } else {
        let hb = skip_ws_back(t, lo, es);
        let s1 = find_byte(t, hb, 0x20, lo);
        let s2 = find_byte(t, hb, 0x20, s1 + 1);
        let (ra, rb) = trim(t, ee + 1, tab);
        if !is_hash_text(t.subrange(lo, s1)) || s1 >= hb || !is_hash_text(t.subrange(s1 + 1, s2))
            || s2 >= hb {
            None
        } else {
            let (na, nb) = trim(t, s2 + 1, hb);
            match next_token(t, rb, ra) {
                None => None,
                Some((ta, tb)) => match parse_int(
                    t.subrange(ta, tb),
                    10,
                    -0x8000_0000_0000_0000,
                    0x7fff_ffff_ffff_ffff,
                ) {
                    None => None,
                    Some(ts) => Some(
                        ReflogModel {
                            old: hash_at(t, lo, s1),
                            new: hash_at(t, s1 + 1, s2),
                            name: t.subrange(na, nb),
                            email: t.subrange(es + 1, ee),
                            timestamp: ts as i64,
                            tz_offset: match next_token(t, rb, tb) {
                                Some((za, zb)) => t.subrange(za, zb),
                                None => utc_text(),
                            },
                            message: t.subrange(tab + 1, hi),
                        },
                    ),
                },
            }
        }
    }
}

/// The entries of the well-formed lines of `t` from `p` on, in order.
pub open spec fn spec_reflog_lines(t: Seq<u8>, p: int) -> Seq<ReflogModel>
    decreases t.len() - p,
{
    if p >= t.len() || p < 0 {
        seq![]
    } else {
        let (ce, next) = line_at(t, t.len() as int, p);
        if next <= p {
            seq![]
        } else {
            match spec_parse_line(t, p, ce) {
                Some(m) => seq![m] + spec_reflog_lines(t, next),
                None => spec_reflog_lines(t, next),
            }
        }
    }
}

/// The entries that a reflog file's bytes record: its lines (read as UTF-8,
/// ill-formed sequences replaced as `String::from_utf8_lossy` does) that are
/// well-formed entries, in file order.
pub open spec fn spec_parse_reflog(bytes: Seq<u8>) -> Seq<ReflogModel> {
    if valid_utf8(bytes) {
        spec_reflog_lines(bytes, 0)
    } else {
        spec_reflog_lines(lossy_utf8(bytes), 0)
    }
}

fn hash_text(t: &[u8], a: usize, b: usize) -> (r: Option<GitHash>)
    requires
        a <= b <= t@.len(),
    ensures
        r is Some <==> is_hash_text(t@.subrange(a as int, b as int)),
        r matches Some(h) ==> h == hash_at(t@, a as int, b as int),
{
    match GitHash::parse_hex(t, a, b) {
        Some(h) => {
            proof {
                crate::hash::lemma_hash_eq(h, hash_at(t@, a as int, b as int));
            }
            Some(h)
        },
        None => None,
    }
}
/// Parse a single reflog line, returning `None` if it is malformed.
pub fn parse_line(line: &str) -> (r: Option<ReflogEntry>)
    ensures
        r matches Some(e) ==> spec_parse_line(line.spec_bytes(), 0, line.spec_bytes().len() as int) == Some(e.model()),
        r is None ==> spec_parse_line(line.spec_bytes(), 0, line.spec_bytes().len() as int) is None,
{
    let t = line.as_bytes();
    proof {
        vstd::utf8::encode_utf8_valid_utf8(line@);
        crate::strings::lemma_char_start_zero(t@);
    }
    parse_line_in(t, 0, t.len())
}

/// Parse the line `t[lo..hi]` of a reflog.
fn parse_line_in(t: &[u8], lo: usize, hi: usize) -> (r: Option<ReflogEntry>)
    requires
        lo <= hi <= t@.len(),
        valid_utf8(t@),
        at_char_start(t@, lo as int),
        at_char_start(t@, hi as int),
    ensures
        r matches Some(e) ==> spec_parse_line(t@, lo as int, hi as int) == Some(e.model()),
        r is None ==> spec_parse_line(t@, lo as int, hi as int) is None,
{
    let tab = find_byte_exec(t, hi, 0x09, lo);
    let es = find_byte_exec(t, tab, 0x3c, lo);
    let ee = find_byte_exec(t, tab, 0x3e, es);
    if tab >= hi || es >= tab || ee >= tab {
        return None;
    }
    let hb = skip_ws_back_exec(t, lo, es);
    proof {
        lemma_skip_ws_back_bounds(t@, lo as int, es as int);
    }
    let s1 = find_byte_exec(t, hb, 0x20, lo);
    if s1 >= hb {
        let _ = hash_text(t, lo, s1);
        return None;
    }
    let s2 = find_byte_exec(t, hb, 0x20, s1 + 1);
    let old = match hash_text(t, lo, s1) {
        Some(h) => h,
        None => return None,
    };
    let new = match hash_text(t, s1 + 1, s2) {
        Some(h) => h,
        None => return None,
    };
    if s2 >= hb {
        return None;
    }
    let (ra, rb) = trim_exec(t, ee + 1, tab);
    let (na, nb) = trim_exec(t, s2 + 1, hb);
    let (ta, tb) = match next_token_exec(t, rb, ra) {
        Some(x) => x,
        None => return None,
    };
    let ts = match parse_int_exec(t, ta, tb, 10, i64::MIN, 0x7fff_ffff_ffff_ffff) {
        Some(v) => v as i64,
        None => return None,
    };
    proof {
        assert(at_char_start(t@, es as int));
        assert(at_char_start(t@, ee as int));
        assert(at_char_start(t@, tab as int));
        assert(at_char_start(t@, s2 as int));
        lemma_next_char_start(t@, es as int, 1);
        lemma_next_char_start(t@, ee as int, 1);
        lemma_next_char_start(t@, tab as int, 1);
        lemma_next_char_start(t@, s2 as int, 1);
        lemma_skip_ws_back_char_start(t@, lo as int, es as int);
        lemma_skip_ws_char_start(t@, hb as int, s2 + 1);
        lemma_skip_ws_back_char_start(t@, na as int, hb as int);
        lemma_valid_cut(t@, na as int, nb as int);
        lemma_valid_cut(t@, es + 1, ee as int);
        lemma_valid_cut(t@, tab + 1, hi as int);
        lemma_skip_ws_char_start(t@, tab as int, ee + 1);
        lemma_skip_ws_back_char_start(t@, ra as int, tab as int);
    }
    let tz_offset = match next_token_exec(t, rb, tb) {
        Some((za, zb)) => {
            proof {
                lemma_token_end_char_start(t@, rb as int, ta as int);
                lemma_skip_ws_char_start(t@, rb as int, tb as int);
                lemma_token_end_char_start(t@, rb as int, tb as int);
                lemma_token_end_char_start(t@, rb as int, za as int);
                lemma_valid_cut(t@, za as int, zb as int);
            }
            string_of(t, za, zb)
        },
        None => {
            let s = text("+0000");
            proof {
                reveal_strlit("+0000");
                vstd::utf8::is_ascii_chars_encode_utf8(s@);
                assert(encode_utf8(s@) =~= utc_text());
            }
            s
        },
    };
    let name = string_of(t, na, nb);
    let email = string_of(t, es + 1, ee);
    let message = string_of(t, tab + 1, hi);
    Some(ReflogEntry { old, new, name, email, timestamp: ts, tz_offset, message })
}

/// Parse a whole reflog file's bytes into entries.
///
/// Malformed lines are skipped rather than fatal: a reflog is local, mutable,
/// and may be partially truncated, so robustness beats strictness here.
pub fn parse_reflog(bytes: &[u8]) -> (r: Vec<ReflogEntry>)
    ensures
        entries_model(r@) == spec_parse_reflog(bytes@),
{
    let t = from_utf8_lossy_bytes(bytes);
    let len = t.len();
    let mut out: Vec<ReflogEntry> = Vec::new();
    let mut p: usize = 0;
    proof {
        crate::strings::lemma_char_start_zero(t@);
    }
    while p < len
        invariant
            len == t@.len(),
            p <= len,
            valid_utf8(t@),
            at_char_start(t@, p as int),
            spec_parse_reflog(bytes@) == entries_model(out@) + spec_reflog_lines(t@, p as int),
        decreases len - p,
    {
        let (ce, next) = line_at_exec(t.as_slice(), len, p);
        proof {
            assert(at_char_start(t@, ce as int));
            assert(at_char_start(t@, next as int)) by {
                if next < len {
                    assert(at_char_start(t@, next - 1));
                    lemma_next_char_start(t@, next - 1, 1);
                }
            }
        }
        let ghost before = out@;
        match parse_line_in(t.as_slice(), p, ce) {
            Some(e) => {
                out.push(e);
                proof {
                    assert(entries_model(out@) =~= entries_model(before) + seq![e.model()]);
                    assert(spec_reflog_lines(t@, p as int) == seq![e.model()] + spec_reflog_lines(t@, next as int));
                    assert(entries_model(out@) + spec_reflog_lines(t@, next as int) =~= entries_model(before) + spec_reflog_lines(t@, p as int));
                }
            },
            None => {},
        }
        p = next;
    }
    assert(spec_reflog_lines(t@, p as int) =~= Seq::<ReflogModel>::empty());
    assert(entries_model(out@) + Seq::<ReflogModel>::empty() =~= entries_model(out@));
    out
}


/// `logs/`, the directory of reflogs.
pub open spec fn logs_prefix() -> Seq<u8> {
    seq![0x6cu8, 0x6f, 0x67, 0x73, 0x2f]
}

/// The entries of the reflog of `refname` (the file `logs/<refname>`): none
/// when the log does not exist.
pub open spec fn spec_read_reflog(files: Seq<FileModel>, refname: Seq<u8>) -> Result<Seq<ReflogModel>, GitErrorModel> {
    match file_slot(files, logs_prefix() + refname, files.len() as int) {
        None => Ok(seq![]),
        Some(i) => match files[i].data {
            None => Err(GitErrorModel::Io),
            Some(b) => Ok(spec_parse_reflog(b)),
        },
    }
}

pub open spec fn reflog_result(r: Result<Vec<ReflogEntry>, GitError>) -> Result<Seq<ReflogModel>, GitErrorModel> {
    match r {
        Ok(v) => Ok(entries_model(v@)),
        Err(e) => Err(e.model()),
    }
}

/// Read the reflog for `refname` (e.g. `"HEAD"`, `"refs/heads/main"`) from the
/// files of a `.git` directory.
///
/// Returns an empty vec (not an error) when the log file is absent: git only
/// creates a log once a ref has moved, so absence is normal, not a failure.
pub fn read_reflog(git_dir: &Vec<RepoFile>, refname: &str) -> (r: Result<Vec<ReflogEntry>, GitError>)
    ensures
        reflog_result(r) == spec_read_reflog(files_model(git_dir@), refname.spec_bytes()),
{
    let mut path: Vec<u8> = vec![0x6cu8, 0x6f, 0x67, 0x73, 0x2f];
    let name = refname.as_bytes();
    append_range(&mut path, name, 0, name.len());
    proof {
        assert(name@.subrange(0, name@.len() as int) =~= name@);
        assert(path@ =~= logs_prefix() + refname.spec_bytes());
    }
    match find_file(git_dir, path.as_slice()) {
        None => {
            let v: Vec<ReflogEntry> = Vec::new();
            assert(entries_model(v@) =~= seq![]);
            Ok(v)
        },
        Some(i) => {
            proof {
                lemma_file_slot(files_model(git_dir@), path@, git_dir@.len() as int);
            }
            assert(files_model(git_dir@)[i as int] == git_dir@[i as int].model());
            match &git_dir[i].data {
                FileData::Unreadable(m) => Err(GitError::Io(m.clone())),
                FileData::Bytes(b) => Ok(parse_reflog(b.as_slice())),
            }
        },
    }
}


/// A line reads the same inside a larger text as on its own.
proof fn lemma_parse_line_shift(t: Seq<u8>, u: Seq<u8>, o: int, lo: int, hi: int)
    requires
        embeds(t, u, o),
        0 <= lo <= hi <= u.len(),
    ensures
        spec_parse_line(t, lo + o, hi + o) == spec_parse_line(u, lo, hi),
{
    lemma_find_byte_shift(t, u, o, hi, 0x09, lo);
    let tab = find_byte(u, hi, 0x09, lo);
    lemma_find_byte_shift(t, u, o, tab, 0x3c, lo);
    let es = find_byte(u, tab, 0x3c, lo);
    lemma_find_byte_shift(t, u, o, tab, 0x3e, es);
    let ee = find_byte(u, tab, 0x3e, es);
    if !(tab >= hi || es >= tab || ee >= tab) {
        lemma_find_byte_hit(u, tab, 0x3c, lo);
        lemma_find_byte_shift(t, u, o, tab, 0x3e, es + 1);
        assert(ee == find_byte(u, tab, 0x3e, es + 1));
        lemma_skip_ws_back_shift(t, u, o, lo, es);
        let hb = skip_ws_back(u, lo, es);
        lemma_find_byte_shift(t, u, o, hb, 0x20, lo);
        let s1 = find_byte(u, hb, 0x20, lo);
        lemma_find_byte_shift(t, u, o, hb, 0x20, s1 + 1);
        let s2 = find_byte(u, hb, 0x20, s1 + 1);
        lemma_trim_shift(t, u, o, ee + 1, tab);
        let (ra, rb) = trim(u, ee + 1, tab);
        lemma_subrange_shift(t, u, o, lo, s1);
        if s1 < hb {
            lemma_subrange_shift(t, u, o, s1 + 1, s2);
        }
        if !(!is_hash_text(u.subrange(lo, s1)) || s1 >= hb || !is_hash_text(u.subrange(s1 + 1, s2))
            || s2 >= hb) {
            lemma_trim_shift(t, u, o, s2 + 1, hb);
            let (na, nb) = trim(u, s2 + 1, hb);
            lemma_next_token_shift(t, u, o, rb, ra);
            if let Some((ta, tb)) = next_token(u, rb, ra) {
                lemma_subrange_shift(t, u, o, ta, tb);
                lemma_next_token_shift(t, u, o, rb, tb);
                if let Some((za, zb)) = next_token(u, rb, tb) {
                    lemma_subrange_shift(t, u, o, za, zb);
                }
                lemma_subrange_shift(t, u, o, na, nb);
                lemma_subrange_shift(t, u, o, es + 1, ee);
                lemma_subrange_shift(t, u, o, tab + 1, hi);
            }
        }
    }
}

/// The lines of `a + b` from `p` within `a` are those of `a`, then those of
/// the rest, when `a` ends a line.
proof fn lemma_lines_prefix(a: Seq<u8>, b: Seq<u8>, p: int)
    requires
        0 <= p <= a.len(),
        a.len() == 0 || a[a.len() - 1] == 0x0a,
    ensures
        spec_reflog_lines(a + b, p) == spec_reflog_lines(a, p) + spec_reflog_lines(a + b, a.len() as int),
    decreases a.len() - p,
{
    let t = a + b;
    if p < a.len() {
        assert(embeds(t, a, 0));
        lemma_find_byte_before(a, a.len() as int, 0x0a, p, a.len() - 1);
        lemma_find_byte_shift(t, a, 0, a.len() as int, 0x0a, p);
        lemma_find_byte_extend(t, a.len() as int, t.len() as int, 0x0a, p);
        let q = find_byte(a, a.len() as int, 0x0a, p);
        assert(find_byte(t, t.len() as int, 0x0a, p) == q);
        if q > p {
            assert(t[q - 1] == a[q - 1]);
        }
        let (ce, next) = line_at(a, a.len() as int, p);
        assert(line_at(t, t.len() as int, p) == (ce, next));
        lemma_parse_line_shift(t, a, 0, p, ce);
        lemma_lines_prefix(a, b, next);
        match spec_parse_line(a, p, ce) {
            Some(e) => {
                assert(seq![e] + spec_reflog_lines(a, next) + spec_reflog_lines(t, a.len() as int) =~= seq![e] + (
                spec_reflog_lines(a, next) + spec_reflog_lines(t, a.len() as int)));
            },
            None => {},
        }
    } else {
        assert(spec_reflog_lines(a, p) =~= Seq::<ReflogModel>::empty());
        assert(Seq::<ReflogModel>::empty() + spec_reflog_lines(t, p) =~= spec_reflog_lines(t, p));
    }
}

/// The lines of `a + b` from `a.len() + q` are those of `b` from `q`.
proof fn lemma_lines_suffix(a: Seq<u8>, b: Seq<u8>, q: int)
    requires
        0 <= q <= b.len(),
    ensures
        spec_reflog_lines(a + b, a.len() + q) == spec_reflog_lines(b, q),
    decreases b.len() - q,
{
    let t = a + b;
    let o = a.len() as int;
    assert(embeds(t, b, o));
    if q < b.len() {
        lemma_line_at_shift(t, b, o, b.len() as int, q);
        let (ce, next) = line_at(b, b.len() as int, q);
        assert(line_at(t, t.len() as int, o + q) == (ce + o, next + o));
        if next > q {
            assert(q <= ce <= next <= b.len()) by {
                lemma_find_byte_shift(t, b, o, b.len() as int, 0x0a, q);
            }
            lemma_parse_line_shift(t, b, o, q, ce);
            lemma_lines_suffix(a, b, next);
            assert(spec_reflog_lines(t, o + q) == match spec_parse_line(t, q + o, ce + o) {
                Some(m) => seq![m] + spec_reflog_lines(t, next + o),
                None => spec_reflog_lines(t, next + o),
            });
        }
    }
}

/// Reflog text splits at line boundaries: the entries of two texts, the first
/// empty or ending in a newline, joined are the entries of each, joined; each
/// entry comes from one line, in order.
pub proof fn law_reflog_lines_concat(a: Seq<u8>, b: Seq<u8>)
    requires
        a.len() == 0 || a[a.len() - 1] == 0x0a,
    ensures
        spec_reflog_lines(a + b, 0) == spec_reflog_lines(a, 0) + spec_reflog_lines(b, 0),
{
    lemma_lines_prefix(a, b, 0);
    lemma_lines_suffix(a, b, 0);
}

/// For well-formed UTF-8 reflogs, parsing two files' bytes joined at a line
/// boundary gives the entries of each, joined.
pub proof fn law_parse_reflog_concat(a: Seq<u8>, b: Seq<u8>)
    requires
        valid_utf8(a),
        valid_utf8(b),
        a.len() == 0 || a[a.len() - 1] == 0x0a,
    ensures
        spec_parse_reflog(a + b) == spec_parse_reflog(a) + spec_parse_reflog(b),
{
    vstd::utf8::valid_utf8_concat(a, b);
    law_reflog_lines_concat(a, b);
}


/// The newline bytes of `t` from `p` on.
pub open spec fn newlines_from(t: Seq<u8>, p: int) -> nat
    decreases t.len() - p,
{
    if p < 0 || p >= t.len() {
        0
    } else {
        (if t[p] == 0x0a { 1nat } else { 0nat }) + newlines_from(t, p + 1)
    }
}

/// The lines that `str::lines` yields for `t[p..]`: one per newline, and one
/// more for a last line that no newline ends.
pub open spec fn lines_from(t: Seq<u8>, p: int) -> nat {
    newlines_from(t, p) + (if 0 <= p < t.len() && t[t.len() - 1] != 0x0a { 1nat } else { 0nat })
}

/// The lines of `t`.
pub open spec fn line_count(t: Seq<u8>) -> nat {
    lines_from(t, 0)
}

proof fn lemma_newlines_to_next(t: Seq<u8>, p: int)
    requires
        0 <= p < t.len(),
        find_byte(t, t.len() as int, 0x0a, p) < t.len(),
    ensures
        newlines_from(t, p) == 1 + newlines_from(t, find_byte(t, t.len() as int, 0x0a, p) + 1),
    decreases t.len() - p,
{
    if t[p] != 0x0a {
        lemma_find_byte_hit(t, t.len() as int, 0x0a, p + 1);
        lemma_newlines_to_next(t, p + 1);
    }
}

proof fn lemma_lines_bounded(t: Seq<u8>, p: int)
    requires
        0 <= p,
    ensures
        spec_reflog_lines(t, p).len() <= lines_from(t, p),
    decreases t.len() - p,
{
    if p < t.len() {
        let len = t.len() as int;
        let q = find_byte(t, len, 0x0a, p);
        let (ce, next) = line_at(t, len, p);
        if q >= len {
            if t[len - 1] == 0x0a {
                lemma_find_byte_before(t, len, 0x0a, p, len - 1);
            }
            assert(spec_reflog_lines(t, len).len() == 0);
            assert(spec_reflog_lines(t, p).len() <= 1);
        } else {
            lemma_find_byte_hit(t, len, 0x0a, p);
            lemma_newlines_to_next(t, p);
            lemma_lines_bounded(t, next);
            assert(next == q + 1);
            assert(spec_reflog_lines(t, p).len() <= 1 + spec_reflog_lines(t, next).len());
        }
    }
}

/// A reflog yields at most one entry per line of the text it is read as:
/// the bytes themselves when they are well-formed UTF-8, else their lossy
/// conversion.
pub proof fn law_reflog_entries_at_most_lines(bytes: Seq<u8>)
    ensures
        valid_utf8(bytes) ==> spec_parse_reflog(bytes).len() <= line_count(bytes),
        !valid_utf8(bytes) ==> spec_parse_reflog(bytes).len() <= line_count(lossy_utf8(bytes)),
{
    lemma_lines_bounded(bytes, 0);
    lemma_lines_bounded(lossy_utf8(bytes), 0);
}

} // verus!

//! Commit objects: `tree`, `parent`, `author`, `committer` and `gpgsig`
//! headers, then a blank line and the message.
use vstd::prelude::*;
use vstd::utf8::*;

use crate::error::{GitError, GitErrorModel};
use crate::hash::{hex_decode, hex_error, hex_error_message, is_hash_text, GitHash};
use crate::strings::{
    at_char_start, debug_text, join, lemma_next_char_start, lemma_valid_cut, str_debug, string_of,
    text, utf8_error, utf8_error_text,
};
use crate::text::{
    has_prefix, has_prefix_exec, lemma_skip_ws_back_char_start, lemma_skip_ws_char_start,
    lemma_two_digits, line_at, line_at_exec, next_token, next_token_exec, parse_int,
    parse_int_exec, rfind_byte, rfind_byte_exec, trim, trim_exec, find_byte,
};

verus! {

/// An identity line: `Name <email> timestamp tz`.
#[derive(Debug, Clone)]
pub struct Signature {
    pub name: String,
    pub email: String,
    /// Unix timestamp (seconds since epoch).
    pub timestamp: i64,
    /// UTC offset in seconds (e.g. +0800 → 28800).
    pub tz_offset_secs: i32,
}

/// A signature with its text fields as UTF-8 bytes.
pub struct SignatureModel {
    pub name: Seq<u8>,
    pub email: Seq<u8>,
    pub timestamp: i64,
    pub tz_offset_secs: i32,
}

impl Signature {
    pub open spec fn model(&self) -> SignatureModel {
        SignatureModel {
            name: encode_utf8(self.name@),
            email: encode_utf8(self.email@),
            timestamp: self.timestamp,
            tz_offset_secs: self.tz_offset_secs,
        }
    }
}

/// A parsed commit object.
#[derive(Debug, Clone)]
pub struct CommitObject {
    pub hash: GitHash,
    pub tree: GitHash,
    pub parents: Vec<GitHash>,
    pub author: Signature,
    pub committer: Signature,
    pub message: String,
    /// True iff a `gpgsig` header was present. Only the presence is recorded;
    /// the signature itself is not checked.
    pub is_signed: bool,
}

/// A commit with its text fields as UTF-8 bytes.
pub struct CommitModel {
    pub hash: GitHash,
    pub tree: GitHash,
    pub parents: Seq<GitHash>,
    pub author: SignatureModel,
    pub committer: SignatureModel,
    pub message: Seq<u8>,
    pub is_signed: bool,
}

impl CommitObject {
    pub open spec fn model(&self) -> CommitModel {
        CommitModel {
            hash: self.hash,
            tree: self.tree,
            parents: self.parents@,
            author: self.author.model(),
            committer: self.committer.model(),
            message: encode_utf8(self.message@),
            is_signed: self.is_signed,
        }
    }
}

/// The hash that 40 hex digits at `s[lo..hi]` name.
pub open spec fn hash_of_text(s: Seq<u8>, lo: int, hi: int) -> GitHash {
    choose|h: GitHash| h.0@ == hex_decode(s.subrange(lo, hi))
}

/// Past any run of leading `+` and `-` (`trim_start_matches(['+', '-'])`).
pub open spec fn skip_signs(s: Seq<u8>, e: int, i: int) -> int
    decreases e - i,
{
    if 0 <= i < e && e <= s.len() && (s[i] == 0x2b || s[i] == 0x2d) {
        skip_signs(s, e, i + 1)
    } else {
        i
    }
}

/// A two-digit field of a timezone, or 0 where it does not parse.
pub open spec fn tz_field(s: Seq<u8>, i: int) -> int {
    match parse_int(s.subrange(i, i + 2), 10, -0x8000_0000, 0x7fff_ffff) {
        Some(v) => v,
        None => 0,
    }
}

/// The UTC offset in seconds that a timezone token `s[a..b]` such as `+0800`
/// or `-0500` stands for; a token that is not a sign run then four bytes
/// counts as UTC.
pub open spec fn tz_offset(s: Seq<u8>, a: int, b: int) -> i32 {
    let sign: int = if s[a] == 0x2d {
        -1
    } else {
        1
    };
    let d = skip_signs(s, b, a);
    if b - d == 4 {
        (sign * (tz_field(s, d) * 3600 + tz_field(s, d + 2) * 60)) as i32
    } else {
        0
    }
}

/// The signature that `s[lo..hi]` (`Name <email> timestamp tz`) describes:
/// the email lies between the last `<` and the last `>`, the name is what
/// precedes the `<` (trimmed), the timestamp is the first whitespace-separated
/// item after the `>` and the timezone the second (UTC when absent).
pub open spec fn spec_parse_signature(s: Seq<u8>, lo: int, hi: int) -> Option<SignatureModel> {
    match (rfind_byte(s, lo, 0x3e, hi), rfind_byte(s, lo, 0x3c, hi)) {
        (Some(ee), Some(es)) => {
            if es >= ee {
                None
            } else {
                let (na, nb) = trim(s, lo, es);
                let (ra, rb) = trim(s, ee + 1, hi);
                match next_token(s, rb, ra) {
                    None => None,
                    Some((ta, tb)) => match parse_int(
                        s.subrange(ta, tb),
                        10,
                        -0x8000_0000_0000_0000,
                        0x7fff_ffff_ffff_ffff,
                    ) {
                        None => None,
                        Some(ts) => Some(
                            SignatureModel {
                                name: s.subrange(na, nb),
                                email: s.subrange(es + 1, ee),
                                timestamp: ts as i64,
                                tz_offset_secs: match next_token(s, rb, tb) {
                                    Some((za, zb)) => tz_offset(s, za, zb),
                                    None => 0,
                                },
                            },
                        ),
                    },
                }
            }
        },
        _ => None,
    }
}

pub open spec fn tree_prefix() -> Seq<u8> {
    seq![0x74u8, 0x72, 0x65, 0x65, 0x20]
}

pub open spec fn parent_prefix() -> Seq<u8> {
    seq![0x70u8, 0x61, 0x72, 0x65, 0x6e, 0x74, 0x20]
}

pub open spec fn author_prefix() -> Seq<u8> {
    seq![0x61u8, 0x75, 0x74, 0x68, 0x6f, 0x72, 0x20]
}

pub open spec fn committer_prefix() -> Seq<u8> {
    seq![0x63u8, 0x6f, 0x6d, 0x6d, 0x69, 0x74, 0x74, 0x65, 0x72, 0x20]
}

pub open spec fn gpgsig_prefix() -> Seq<u8> {
    seq![0x67u8, 0x70, 0x67, 0x73, 0x69, 0x67, 0x20]
}

/// The headers seen so far while reading a commit.
pub struct Headers {
    pub tree: Option<GitHash>,
    pub parents: Seq<GitHash>,
    pub author: Option<SignatureModel>,
    pub committer: Option<SignatureModel>,
    pub signed: bool,
}

pub open spec fn no_headers() -> Headers {
    Headers { tree: None, parents: seq![], author: None, committer: None, signed: false }
}

/// Read the header lines from `p` on: each `tree`/`parent` line names a hash
/// (the last `tree` wins, parents accumulate), each `author`/`committer` line
/// a signature (the last wins), a `gpgsig` line marks the commit signed and
/// other lines are ignored. The first empty line ends the headers; the result
/// is the headers and where the message starts.
pub open spec fn scan_headers(s: Seq<u8>, p: int, h: Headers) -> Result<(Headers, int), GitErrorModel>
    decreases s.len() - p,
{
    if p >= s.len() || p < 0 {
        Ok((h, s.len() as int))
    } else {
        let (ce, next) = line_at(s, s.len() as int, p);
        if next <= p {
            Ok((h, s.len() as int))
        } else if ce == p {
            Ok((h, next))
        } else if has_prefix(s, p, ce, tree_prefix()) {
            let (a, b) = trim(s, p + 5, ce);
            if is_hash_text(s.subrange(a, b)) {
                scan_headers(s, next, Headers { tree: Some(hash_of_text(s, a, b)), ..h })
            } else {
                Err(GitErrorModel::InvalidHash(hex_error_message(s.subrange(a, b))))
            }
        } else if has_prefix(s, p, ce, parent_prefix()) {
            let (a, b) = trim(s, p + 7, ce);
            if is_hash_text(s.subrange(a, b)) {
                scan_headers(
                    s,
                    next,
                    Headers { parents: h.parents.push(hash_of_text(s, a, b)), ..h },
                )
            } else {
                Err(GitErrorModel::InvalidHash(hex_error_message(s.subrange(a, b))))
            }
        } else if has_prefix(s, p, ce, author_prefix()) {
            match spec_parse_signature(s, p + 7, ce) {
                Some(sig) => scan_headers(s, next, Headers { author: Some(sig), ..h }),
                None => Err(GitErrorModel::InvalidObject(signature_message(s.subrange(p + 7, ce)))),
            }
        } else if has_prefix(s, p, ce, committer_prefix()) {
            match spec_parse_signature(s, p + 10, ce) {
                Some(sig) => scan_headers(s, next, Headers { committer: Some(sig), ..h }),
                None => Err(GitErrorModel::InvalidObject(signature_message(s.subrange(p + 10, ce)))),
            }
        } else if has_prefix(s, p, ce, gpgsig_prefix()) {
            scan_headers(s, next, Headers { signed: true, ..h })
        } else {
            scan_headers(s, next, h)
        }
    }
}

/// The hashes named on the `parent ` lines of the headers from `p` on, in
/// the order of the lines; the headers end at the first empty line.
pub open spec fn parent_lines(s: Seq<u8>, p: int) -> Seq<GitHash>
    decreases s.len() - p,
{
    if p >= s.len() || p < 0 {
        seq![]
    } else {
        let (ce, next) = line_at(s, s.len() as int, p);
        if next <= p || ce == p {
            seq![]
        } else if has_prefix(s, p, ce, parent_prefix()) {
            let (a, b) = trim(s, p + 7, ce);
            seq![hash_of_text(s, a, b)] + parent_lines(s, next)
        } else {
            parent_lines(s, next)
        }
    }
}

proof fn lemma_scan_parents(s: Seq<u8>, p: int, h: Headers)
    ensures
        scan_headers(s, p, h) matches Ok((h2, _)) ==> h2.parents == h.parents + parent_lines(s, p),
    decreases s.len() - p,
{
    if 0 <= p < s.len() {
        let (ce, next) = line_at(s, s.len() as int, p);
        if next > p && ce != p {
            if has_prefix(s, p, ce, tree_prefix()) {
                assert(!has_prefix(s, p, ce, parent_prefix())) by {
                    assert(s.subrange(p, p + 5)[0] == s[p]);
                    if has_prefix(s, p, ce, parent_prefix()) {
                        assert(s.subrange(p, p + 7)[0] == s[p]);
                    }
                }
                let (a, b) = trim(s, p + 5, ce);
                lemma_scan_parents(s, next, Headers { tree: Some(hash_of_text(s, a, b)), ..h });
            } else if has_prefix(s, p, ce, parent_prefix()) {
                let (a, b) = trim(s, p + 7, ce);
                let x = hash_of_text(s, a, b);
                lemma_scan_parents(s, next, Headers { parents: h.parents.push(x), ..h });
                assert(h.parents.push(x) + parent_lines(s, next) =~= h.parents + (seq![x] + parent_lines(
                    s,
                    next,
                )));
            } else if has_prefix(s, p, ce, author_prefix()) {
                if let Some(sig) = spec_parse_signature(s, p + 7, ce) {
                    lemma_scan_parents(s, next, Headers { author: Some(sig), ..h });
                }
            } else if has_prefix(s, p, ce, committer_prefix()) {
                if let Some(sig) = spec_parse_signature(s, p + 10, ce) {
                    lemma_scan_parents(s, next, Headers { committer: Some(sig), ..h });
                }
            } else if has_prefix(s, p, ce, gpgsig_prefix()) {
                lemma_scan_parents(s, next, Headers { signed: true, ..h });
            } else {
                lemma_scan_parents(s, next, h);
            }
        } else {
            assert(parent_lines(s, p) =~= Seq::<GitHash>::empty());
            assert(h.parents + parent_lines(s, p) =~= h.parents);
        }
    } else {
        assert(h.parents + parent_lines(s, p) =~= h.parents);
    }
}

/// A commit's parents are exactly the hashes on its `parent ` header lines,
/// one per line and in the order of the lines.
pub proof fn law_commit_parents(hash: GitHash, data: Seq<u8>)
    ensures
        spec_parse_commit(hash, data) matches Ok(c) ==> c.parents == parent_lines(data, 0),
{
    lemma_scan_parents(data, 0, no_headers());
    assert(no_headers().parents + parent_lines(data, 0) =~= parent_lines(data, 0));
}

/// The commit that the bytes `data` of object `hash` describe: the bytes must
/// be UTF-8 text whose headers parse and include a tree, an author and a
/// committer; the message is everything after the first empty line.
pub open spec fn spec_parse_commit(hash: GitHash, data: Seq<u8>) -> Result<CommitModel, GitErrorModel> {
    if !valid_utf8(data) {
        Err(GitErrorModel::InvalidObject("commit not valid UTF-8: "@ + utf8_error_text(data)))
    } else {
        match scan_headers(data, 0, no_headers()) {
            Err(k) => Err(k),
            Ok((h, m)) => {
                if h.tree is None {
                    Err(GitErrorModel::InvalidObject("commit missing tree"@))
                } else if h.author is None {
                    Err(GitErrorModel::InvalidObject("commit missing author"@))
                } else if h.committer is None {
                    Err(GitErrorModel::InvalidObject("commit missing committer"@))
                } else {
                    Ok(
                        CommitModel {
                            hash,
                            tree: h.tree.unwrap(),
                            parents: h.parents,
                            author: h.author.unwrap(),
                            committer: h.committer.unwrap(),
                            message: data.subrange(m, data.len() as int),
                            is_signed: h.signed,
                        },
                    )
                }
            },
        }
    }
}

pub open spec fn opt_model(o: Option<Signature>) -> Option<SignatureModel> {
    match o {
        Some(sig) => Some(sig.model()),
        None => None,
    }
}

fn skip_signs_exec(s: &[u8], e: usize, i: usize) -> (r: usize)
    requires
        i <= e <= s@.len(),
    ensures
        r as int == skip_signs(s@, e as int, i as int),
        i <= r <= e,
{
    let mut k = i;
    while k < e && (s[k] == 0x2b || s[k] == 0x2d)
        invariant
            i <= k <= e <= s@.len(),
            skip_signs(s@, e as int, k as int) == skip_signs(s@, e as int, i as int),
        decreases e - k,
    {
        k = k + 1;
    }
    k
}

fn tz_field_exec(s: &[u8], i: usize) -> (r: i32)
    requires
        i <= s@.len(),
        s@.len() - i >= 2,
    ensures
        r as int == tz_field(s@, i as int),
        -99 <= r <= 99,
{
    let n = s.len();
    match parse_int_exec(s, i, i + 2, 10, -0x8000_0000, 0x7fff_ffff) {
        Some(v) => {
            proof {
                lemma_two_digits(s@.subrange(i as int, i + 2));
            }
            v as i32
        },
        None => 0,
    }
}

fn tz_offset_exec(s: &[u8], a: usize, b: usize) -> (r: i32)
    requires
        a < b <= s@.len(),
    ensures
        r == tz_offset(s@, a as int, b as int),
{
    let sign: i32 = if s[a] == 0x2d {
        -1
    } else {
        1
    };
    let d = skip_signs_exec(s, b, a);
    if b - d == 4 {
        let hh = tz_field_exec(s, d);
        let mm = tz_field_exec(s, d + 2);
        sign * (hh * 3600 + mm * 60)
    } else {
        0
    }
}

/// What the parser says of a signature `t` it cannot read: the text, quoted.
pub open spec fn signature_message(t: Seq<u8>) -> Seq<char> {
    "invalid signature: "@ + debug_text(decode_utf8(t))
}

fn signature_error(s: &[u8], lo: usize, hi: usize) -> (e: GitError)
    requires
        lo <= hi <= s@.len(),
        valid_utf8(s@.subrange(lo as int, hi as int)),
    ensures
        e.model() == GitErrorModel::InvalidObject(signature_message(s@.subrange(lo as int, hi as int))),
{
    let t = string_of(s, lo, hi);
    proof {
        encode_utf8_decode_utf8(t@);
    }
    GitError::InvalidObject(join(text("invalid signature: "), str_debug(t.as_str()).as_str()))
}

/// Parse `s[lo..hi]` as a signature line (after its keyword).
fn parse_signature(s: &[u8], lo: usize, hi: usize) -> (r: Result<Signature, GitError>)
    requires
        lo <= hi <= s@.len(),
        valid_utf8(s@),
        at_char_start(s@, lo as int),
        at_char_start(s@, hi as int),
    ensures
        r matches Ok(sig) ==> spec_parse_signature(s@, lo as int, hi as int) == Some(sig.model()),
        r matches Err(e) ==> spec_parse_signature(s@, lo as int, hi as int) is None && e.model()
            == GitErrorModel::InvalidObject(signature_message(s@.subrange(lo as int, hi as int))),
{
    proof {
        lemma_valid_cut(s@, lo as int, hi as int);
    }
    let ee = match rfind_byte_exec(s, lo, 0x3e, hi) {
        Some(k) => k,
        None => return Err(signature_error(s, lo, hi)),
    };
    let es = match rfind_byte_exec(s, lo, 0x3c, hi) {
        Some(k) => k,
        None => return Err(signature_error(s, lo, hi)),
    };
    if es >= ee {
        return Err(signature_error(s, lo, hi));
    }
    let (na, nb) = trim_exec(s, lo, es);
    let (ra, rb) = trim_exec(s, ee + 1, hi);
    let (ta, tb) = match next_token_exec(s, rb, ra) {
        Some(t) => t,
        None => return Err(signature_error(s, lo, hi)),
    };
    let ts = match parse_int_exec(s, ta, tb, 10, i64::MIN, 0x7fff_ffff_ffff_ffff) {
        Some(v) => v as i64,
        None => return Err(signature_error(s, lo, hi)),
    };
    let tz = match next_token_exec(s, rb, tb) {
        Some((za, zb)) => tz_offset_exec(s, za, zb),
        None => 0,
    };
    proof {
        assert(at_char_start(s@, es as int));
        assert(at_char_start(s@, ee as int));
        lemma_next_char_start(s@, es as int, 1);
        lemma_skip_ws_char_start(s@, es as int, lo as int);
        lemma_skip_ws_back_char_start(s@, na as int, es as int);
        lemma_valid_cut(s@, na as int, nb as int);
        lemma_valid_cut(s@, es + 1, ee as int);
    }
    let name = string_of(s, na, nb);
    let email = string_of(s, es + 1, ee);
    Ok(Signature { name, email, timestamp: ts, tz_offset_secs: tz })
}

fn pattern_tree() -> (r: [u8; 5])
    ensures
        r@ == tree_prefix(),
{
    let r = [0x74u8, 0x72, 0x65, 0x65, 0x20];
    assert(r@ =~= tree_prefix());
    r
}

fn pattern_parent() -> (r: [u8; 7])
    ensures
        r@ == parent_prefix(),
{
    let r = [0x70u8, 0x61, 0x72, 0x65, 0x6e, 0x74, 0x20];
    assert(r@ =~= parent_prefix());
    r
}

fn pattern_author() -> (r: [u8; 7])
    ensures
        r@ == author_prefix(),
{
    let r = [0x61u8, 0x75, 0x74, 0x68, 0x6f, 0x72, 0x20];
    assert(r@ =~= author_prefix());
    r
}

fn pattern_committer() -> (r: [u8; 10])
    ensures
        r@ == committer_prefix(),
{
    let r = [0x63u8, 0x6f, 0x6d, 0x6d, 0x69, 0x74, 0x74, 0x65, 0x72, 0x20];
    assert(r@ =~= committer_prefix());
    r
}

fn pattern_gpgsig() -> (r: [u8; 7])
    ensures
        r@ == gpgsig_prefix(),
{
    let r = [0x67u8, 0x70, 0x67, 0x73, 0x69, 0x67, 0x20];
    assert(r@ =~= gpgsig_prefix());
    r
}

impl CommitObject {
    /// Parse the raw commit object bytes (after the object header is stripped).
    #[verifier::rlimit(40)]
    pub fn parse(hash: GitHash, data: &[u8]) -> (r: Result<CommitObject, GitError>)
        ensures
            r matches Ok(c) ==> spec_parse_commit(hash, data@) == Ok::<CommitModel, GitErrorModel>(c.model()),
            r matches Err(e) ==> spec_parse_commit(hash, data@) == Err::<CommitModel, GitErrorModel>(e.model()),
    {
        match utf8_error(data) {
            Some(e) => {
                return Err(GitError::InvalidObject(join(text("commit not valid UTF-8: "), e.as_str())));
            },
            None => {},
        }
        let len = data.len();
        let mut tree: Option<GitHash> = None;
        let mut parents: Vec<GitHash> = Vec::new();
        let mut author: Option<Signature> = None;
        let mut committer: Option<Signature> = None;
        let mut is_signed = false;
        let mut message_start = len;
        let mut p: usize = 0;
        let ghost full = scan_headers(data@, 0, no_headers());
        while p < len
            invariant_except_break
                len == data@.len(),
                valid_utf8(data@),
                p <= len,
                at_char_start(data@, p as int),
                message_start == len,
                full == scan_headers(data@, 0, no_headers()),
                full == scan_headers(
                    data@,
                    p as int,
                    Headers {
                        tree,
                        parents: parents@,
                        author: opt_model(author),
                        committer: opt_model(committer),
                        signed: is_signed,
                    },
                ),
            ensures
                len == data@.len(),
                valid_utf8(data@),
                message_start <= len,
                full == Ok::<(Headers, int), GitErrorModel>(
                    (
                        Headers {
                            tree,
                            parents: parents@,
                            author: opt_model(author),
                            committer: opt_model(committer),
                            signed: is_signed,
                        },
                        message_start as int,
                    ),
                ),
                at_char_start(data@, message_start as int),
            decreases len - p,
        {
            let (ce, next) = line_at_exec(data, len, p);
            proof {
                let q = find_byte(data@, len as int, 0x0a, p as int);
                assert(at_char_start(data@, ce as int));
                assert(at_char_start(data@, next as int)) by {
                    if next < len {
                        assert(data@[next - 1] == 0x0a);
                        assert(at_char_start(data@, next - 1));
                        lemma_next_char_start(data@, next - 1, 1);
                    }
                }
            }
            if ce == p {
                message_start = next;
                break;
            }
            if has_prefix_exec(data, p, ce, &pattern_tree()) {
                let (a, b) = trim_exec(data, p + 5, ce);
                match GitHash::parse_hex(data, a, b) {
                    Some(h) => {
                        tree = Some(h);
                        proof {
                            crate::hash::lemma_hash_eq(h, hash_of_text(data@, a as int, b as int));
                        }
                    },
                    None => {
                        proof {
                            assert(data@[p + 4] == 0x20);
                            assert(at_char_start(data@, p + 4));
                            lemma_next_char_start(data@, p + 4, 1);
                            lemma_skip_ws_char_start(data@, ce as int, p + 5);
                            lemma_skip_ws_back_char_start(data@, a as int, ce as int);
                            lemma_valid_cut(data@, a as int, b as int);
                        }
                        return Err(hex_error(data, a, b));
                    },
                }
            } else if has_prefix_exec(data, p, ce, &pattern_parent()) {
                let (a, b) = trim_exec(data, p + 7, ce);
                match GitHash::parse_hex(data, a, b) {
                    Some(h) => {
                        parents.push(h);
                        proof {
                            crate::hash::lemma_hash_eq(h, hash_of_text(data@, a as int, b as int));
                        }
                    },
                    None => {
                        proof {
                            assert(data@[p + 6] == 0x20);
                            assert(at_char_start(data@, p + 6));
                            lemma_next_char_start(data@, p + 6, 1);
                            lemma_skip_ws_char_start(data@, ce as int, p + 7);
                            lemma_skip_ws_back_char_start(data@, a as int, ce as int);
                            lemma_valid_cut(data@, a as int, b as int);
                        }
                        return Err(hex_error(data, a, b));
                    },
                }
            } else if has_prefix_exec(data, p, ce, &pattern_author()) {
                proof {
                    assert(data@[p + 6] == 0x20);
                    assert(at_char_start(data@, p + 6));
                    lemma_next_char_start(data@, p + 6, 1);
                }
                match parse_signature(data, p + 7, ce) {
                    Ok(sig) => {
                        author = Some(sig);
                    },
                    Err(e) => {
                        return Err(e);
                    },
                }
            } else if has_prefix_exec(data, p, ce, &pattern_committer()) {
                proof {
                    assert(data@[p + 9] == 0x20);
                    assert(at_char_start(data@, p + 9));
                    lemma_next_char_start(data@, p + 9, 1);
                }
                match parse_signature(data, p + 10, ce) {
                    Ok(sig) => {
                        committer = Some(sig);
                    },
                    Err(e) => {
                        return Err(e);
                    },
                }
            } else if has_prefix_exec(data, p, ce, &pattern_gpgsig()) {
                is_signed = true;
            }
            p = next;
        }
        let tree = match tree {
            Some(t) => t,
            None => return Err(GitError::InvalidObject(text("commit missing tree"))),
        };
        let author = match author {
            Some(a) => a,
            None => return Err(GitError::InvalidObject(text("commit missing author"))),
        };
        let committer = match committer {
            Some(c) => c,
            None => return Err(GitError::InvalidObject(text("commit missing committer"))),
        };
        proof {
            lemma_valid_cut(data@, message_start as int, len as int);
        }
        let message = string_of(data, message_start, len);
        Ok(CommitObject { hash, tree, parents, author, committer, message, is_signed })
    }
}

} // verus!

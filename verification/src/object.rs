//! Object kinds and raw (header-stripped) objects.
use vstd::prelude::*;

use vstd::utf8::*;

use crate::error::{GitError, GitErrorModel};
use crate::strings::{debug_text, from_utf8_lossy_bytes, join, lossy_utf8, str_debug, text, utf8_string};
use crate::tree::slice_range;

verus! {

/// The four object kinds of the store.
#[derive(Debug, Clone, Copy, PartialEq, Eq, Structural)]
pub enum ObjectKind {
    Commit,
    Tree,
    Blob,
    Tag,
}

/// The type name of a kind as it appears in object headers.
pub open spec fn kind_name(k: ObjectKind) -> Seq<u8> {
    match k {
        ObjectKind::Commit => seq![0x63u8, 0x6f, 0x6d, 0x6d, 0x69, 0x74],
        ObjectKind::Tree => seq![0x74u8, 0x72, 0x65, 0x65],
        ObjectKind::Blob => seq![0x62u8, 0x6c, 0x6f, 0x62],
        ObjectKind::Tag => seq![0x74u8, 0x61, 0x67],
    }
}

/// The kind whose type name is `b`, if any.
pub open spec fn kind_of_name(b: Seq<u8>) -> Option<ObjectKind> {
    if b == kind_name(ObjectKind::Commit) {
        Some(ObjectKind::Commit)
    } else if b == kind_name(ObjectKind::Tree) {
        Some(ObjectKind::Tree)
    } else if b == kind_name(ObjectKind::Blob) {
        Some(ObjectKind::Blob)
    } else if b == kind_name(ObjectKind::Tag) {
        Some(ObjectKind::Tag)
    } else {
        None
    }
}

fn eq_bytes(b: &[u8], lo: usize, hi: usize, pat: &[u8]) -> (r: bool)
    requires
        lo <= hi <= b@.len(),
    ensures
        r == (b@.subrange(lo as int, hi as int) == pat@),
{
    if hi - lo != pat.len() {
        assert(b@.subrange(lo as int, hi as int).len() != pat@.len());
        return false;
    }
    let mut k: usize = 0;
    while k < pat.len()
        invariant
            hi - lo == pat@.len(),
            hi <= b@.len(),
            0 <= k <= pat@.len(),
            forall|m: int| 0 <= m < k ==> b@[lo + m] == pat@[m],
        decreases pat@.len() - k,
    {
        if b[lo + k] != pat[k] {
            assert(b@.subrange(lo as int, hi as int)[k as int] != pat@[k as int]);
            return false;
        }
        k = k + 1;
    }
    assert(b@.subrange(lo as int, hi as int) =~= pat@);
    true
}

/// The kind named by `b[lo..hi]`.
pub(crate) fn kind_from_name(b: &[u8], lo: usize, hi: usize) -> (r: Option<ObjectKind>)
    requires
        lo <= hi <= b@.len(),
    ensures
        r == kind_of_name(b@.subrange(lo as int, hi as int)),
{
    let commit = [0x63u8, 0x6f, 0x6d, 0x6d, 0x69, 0x74];
    let tree = [0x74u8, 0x72, 0x65, 0x65];
    let blob = [0x62u8, 0x6c, 0x6f, 0x62];
    let tag = [0x74u8, 0x61, 0x67];
    assert(commit@ =~= kind_name(ObjectKind::Commit));
    assert(tree@ =~= kind_name(ObjectKind::Tree));
    assert(blob@ =~= kind_name(ObjectKind::Blob));
    assert(tag@ =~= kind_name(ObjectKind::Tag));
    if eq_bytes(b, lo, hi, &commit) {
        Some(ObjectKind::Commit)
    } else if eq_bytes(b, lo, hi, &tree) {
        Some(ObjectKind::Tree)
    } else if eq_bytes(b, lo, hi, &blob) {
        Some(ObjectKind::Blob)
    } else if eq_bytes(b, lo, hi, &tag) {
        Some(ObjectKind::Tag)
    } else {
        None
    }
}

/// The type name of a kind, as bytes.
pub(crate) fn kind_name_bytes(k: ObjectKind) -> (r: Vec<u8>)
    ensures
        r@ == kind_name(k),
{
    let r = match k {
        ObjectKind::Commit => vec![0x63u8, 0x6f, 0x6d, 0x6d, 0x69, 0x74],
        ObjectKind::Tree => vec![0x74u8, 0x72, 0x65, 0x65],
        ObjectKind::Blob => vec![0x62u8, 0x6c, 0x6f, 0x62],
        ObjectKind::Tag => vec![0x74u8, 0x61, 0x67],
    };
    assert(r@ =~= kind_name(k));
    r
}

/// What is said of a type name `b` that names no kind: the name, read as
/// UTF-8 with ill-formed sequences replaced, quoted.
pub open spec fn unknown_kind_message(b: Seq<u8>) -> Seq<char> {
    "unknown object kind: "@ + debug_text(decode_utf8(lossy_utf8(b)))
}

/// The error for a type name `b[lo..hi]` that names no kind.
pub(crate) fn unknown_kind_error(b: &[u8], lo: usize, hi: usize) -> (e: GitError)
    requires
        lo <= hi <= b@.len(),
    ensures
        e.model() == GitErrorModel::InvalidObject(unknown_kind_message(b@.subrange(lo as int, hi as int))),
{
    let raw = slice_range(b, lo, hi);
    let t = from_utf8_lossy_bytes(raw.as_slice());
    let name = utf8_string(t);
    proof {
        encode_utf8_decode_utf8(name@);
    }
    GitError::InvalidObject(join(text("unknown object kind: "), str_debug(name.as_str()).as_str()))
}

impl ObjectKind {
    /// The kind named `b` (`commit`, `tree`, `blob` or `tag`).
    pub fn from_bytes(b: &[u8]) -> (r: Result<ObjectKind, GitError>)
        ensures
            r matches Ok(k) ==> kind_of_name(b@) == Some(k),
            r matches Err(e) ==> kind_of_name(b@) is None && e.model() == GitErrorModel::InvalidObject(
                unknown_kind_message(b@),
            ),
    {
        assert(b@.subrange(0, b@.len() as int) =~= b@);
        match kind_from_name(b, 0, b.len()) {
            Some(k) => Ok(k),
            None => Err(unknown_kind_error(b, 0, b.len())),
        }
    }
}

/// The header names of the kinds read back as those kinds: `commit`, `tree`,
/// `blob` and `tag` are the four kinds, each name reads as its kind, and a
/// name that reads as a kind is that kind's name.
pub proof fn law_kind_names(k: ObjectKind, b: Seq<u8>)
    ensures
        kind_of_name(kind_name(k)) == Some(k),
        kind_of_name(b) == Some(k) ==> b == kind_name(k),
        kind_of_name(seq![0x63u8, 0x6f, 0x6d, 0x6d, 0x69, 0x74]) == Some(ObjectKind::Commit),
        kind_of_name(seq![0x74u8, 0x72, 0x65, 0x65]) == Some(ObjectKind::Tree),
        kind_of_name(seq![0x62u8, 0x6c, 0x6f, 0x62]) == Some(ObjectKind::Blob),
        kind_of_name(seq![0x74u8, 0x61, 0x67]) == Some(ObjectKind::Tag),
{
    assert(kind_name(ObjectKind::Commit) != kind_name(ObjectKind::Tree));
    assert(kind_name(ObjectKind::Commit) != kind_name(ObjectKind::Blob));
    assert(kind_name(ObjectKind::Commit) != kind_name(ObjectKind::Tag));
    assert(kind_name(ObjectKind::Tree) != kind_name(ObjectKind::Blob)) by {
        assert(kind_name(ObjectKind::Tree)[0] != kind_name(ObjectKind::Blob)[0]);
    }
    assert(kind_name(ObjectKind::Tree) != kind_name(ObjectKind::Tag));
    assert(kind_name(ObjectKind::Blob) != kind_name(ObjectKind::Tag));
    assert(seq![0x63u8, 0x6f, 0x6d, 0x6d, 0x69, 0x74] =~= kind_name(ObjectKind::Commit));
    assert(seq![0x74u8, 0x72, 0x65, 0x65] =~= kind_name(ObjectKind::Tree));
    assert(seq![0x62u8, 0x6c, 0x6f, 0x62] =~= kind_name(ObjectKind::Blob));
    assert(seq![0x74u8, 0x61, 0x67] =~= kind_name(ObjectKind::Tag));
}

/// An object's kind and content, with whether its content hashes to its name.
#[derive(Debug, Clone)]
pub struct RawObject {
    pub kind: ObjectKind,
    pub data: Vec<u8>,
    /// True if the SHA-1 of (header + data) matched the expected hash.
    pub verified: bool,
}

/// A raw object as plain values.
pub struct RawModel {
    pub kind: ObjectKind,
    pub data: Seq<u8>,
    pub verified: bool,
}

impl RawObject {
    pub open spec fn model(&self) -> RawModel {
        RawModel { kind: self.kind, data: self.data@, verified: self.verified }
    }
}

} // verus!

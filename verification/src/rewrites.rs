//! Reflog-residue analysis: history-rewriting operations recorded in the
//! reflog.
//!
//! Git stamps every ref movement into `.git/logs/<ref>` with a message naming
//! the operation that moved it (`commit:`, `reset:`, `rebase (finish):`,
//! `filter-branch:`, `commit (amend):`, `… (forced update)`). A message whose
//! operation rewrites history is residue an examiner follows — the earlier
//! tip is still resurrectable from the reflog and the object store — never a
//! conclusion.
use vstd::prelude::*;
use vstd::utf8::*;
use vstd::string::StringSliceAdditionalSpecFns;

use crate::error::{GitError, GitErrorModel};
use crate::hash::{hex_encode, GitHash};
use crate::reflog::{entries_model, ReflogEntry, ReflogModel};
use crate::repo::GitRepo;
use crate::reflog::spec_read_reflog;
use crate::report::{evidence, evidence_model, Category, Evidence, Severity};
use crate::strings::{push_text, utf8_string};
use crate::text::{has_prefix, has_prefix_exec};

verus! {

broadcast use vstd::utf8::group_utf8_lib;

/// A history-rewriting operation observed in a ref's reflog.
#[derive(Debug, Clone, PartialEq, Eq)]
pub enum ReflogAnomaly {
    /// A reflog entry whose operation rewrote history (reset/rebase/amend/…).
    HistoryRewrite {
        /// The ref whose reflog this entry belongs to (e.g. `HEAD`).
        ref_name: String,
        /// The ref's value before the rewrite.
        old: GitHash,
        /// The ref's value after the rewrite.
        new: GitHash,
        /// The classified operation keyword (`reset`, `rebase`, `amend`, …).
        operation: String,
        /// The full reflog message.
        message: String,
    },
}

/// A history rewrite with its text fields as UTF-8 bytes.
pub struct RewriteModel {
    pub ref_name: Seq<u8>,
    pub old: GitHash,
    pub new: GitHash,
    pub operation: Seq<u8>,
    pub message: Seq<u8>,
}

impl ReflogAnomaly {
    pub open spec fn model(&self) -> RewriteModel {
        match self {
            ReflogAnomaly::HistoryRewrite { ref_name, old, new, operation, message } => RewriteModel {
                ref_name: encode_utf8(ref_name@),
                old: *old,
                new: *new,
                operation: encode_utf8(operation@),
                message: encode_utf8(message@),
            },
        }
    }
}

pub open spec fn rewrites_model(v: Seq<ReflogAnomaly>) -> Seq<RewriteModel> {
    v.map_values(|a: ReflogAnomaly| a.model())
}

/// The note of a rewrite, as UTF-8 bytes.
pub open spec fn rewrite_note(ref_name: Seq<u8>, operation: Seq<u8>) -> Seq<u8> {
    "reflog of ".spec_bytes() + ref_name + " records a ".spec_bytes() + operation
        + " operation; consistent with history rewriting (the prior tip remains resurrectable from the reflog and object store)".spec_bytes()
}

impl ReflogAnomaly {
    /// The stable, published anomaly code.
    pub fn code(&self) -> (r: &'static str)
        ensures
            r@ == "GIT-HISTORY-REWRITE"@,
    {
        match self {
            ReflogAnomaly::HistoryRewrite { .. } => "GIT-HISTORY-REWRITE",
        }
    }

    /// A rewrite is a routine developer action as often as it is an attempt
    /// to bury history, so it is a Medium-grade lead, not High.
    pub fn severity(&self) -> (r: Option<Severity>)
        ensures
            r == Some(Severity::Medium),
    {
        Some(Severity::Medium)
    }

    /// Rewriting a ref's past is a History signal.
    pub fn category(&self) -> (r: Category)
        ensures
            r == Category::History,
    {
        Category::History
    }

    /// What was observed, and what it is consistent with.
    pub fn note(&self) -> (r: String)
        ensures
            encode_utf8(r@) == rewrite_note(self.model().ref_name, self.model().operation),
    {
        match self {
            ReflogAnomaly::HistoryRewrite { ref_name, operation, .. } => {
                let mut v: Vec<u8> = Vec::new();
                push_text(&mut v, "reflog of ");
                push_text(&mut v, ref_name.as_str());
                push_text(&mut v, " records a ");
                push_text(&mut v, operation.as_str());
                push_text(
                    &mut v,
                    " operation; consistent with history rewriting (the prior tip remains resurrectable from the reflog and object store)",
                );
                proof {
                    let p1 = "reflog of ".spec_bytes();
                    let p2 = " records a ".spec_bytes();
                    let p3 = " operation; consistent with history rewriting (the prior tip remains resurrectable from the reflog and object store)".spec_bytes();
                    let n = encode_utf8(ref_name@);
                    let o = encode_utf8(operation@);
                    assert(v@ =~= p1 + n + p2 + o + p3);
                    assert(valid_utf8(p1) && valid_utf8(p2) && valid_utf8(p3) && valid_utf8(n) && valid_utf8(o));
                    assert(valid_utf8(p1 + n));
                    assert(valid_utf8(p1 + n + p2));
                    assert(valid_utf8(p1 + n + p2 + o));
                    assert(valid_utf8(p1 + n + p2 + o + p3));
                }
                utf8_string(v)
            },
        }
    }

    /// The ref's old and new values and the full message.
    pub fn evidence(&self) -> (r: Vec<Evidence>)
        ensures
            evidence_model(r@) == seq![
                ("old".spec_bytes(), hex_encode(self.model().old.0@)),
                ("new".spec_bytes(), hex_encode(self.model().new.0@)),
                ("message".spec_bytes(), self.model().message),
            ],
    {
        match self {
            ReflogAnomaly::HistoryRewrite { old, new, message, .. } => {
                let r = vec![
                    evidence("old", old.to_hex()),
                    evidence("new", new.to_hex()),
                    evidence("message", message.clone()),
                ];
                assert(evidence_model(r@) =~= seq![
                    ("old".spec_bytes(), hex_encode(old.0@)),
                    ("new".spec_bytes(), hex_encode(new.0@)),
                    ("message".spec_bytes(), encode_utf8(message@)),
                ]);
                r
            },
        }
    }
}

/// `pat` occurs somewhere in `s`.
pub open spec fn has_infix(s: Seq<u8>, pat: Seq<u8>) -> bool {
    exists|i: int| 0 <= i <= s.len() - pat.len() && #[trigger] s.subrange(i, i + pat.len()) == pat
}

/// The history-rewriting operation a reflog message records, if any: a
/// message that starts with `reset:`, or contains `commit (amend)`,
/// `filter-branch`, `rebase` or `(forced update)`, checked in that order.
pub open spec fn spec_classify(m: Seq<u8>) -> Option<Seq<u8>> {
    if has_prefix(m, 0, m.len() as int, "reset:".spec_bytes()) {
        Some("reset".spec_bytes())
    } else if has_infix(m, "commit (amend)".spec_bytes()) {
        Some("amend".spec_bytes())
    } else if has_infix(m, "filter-branch".spec_bytes()) {
        Some("filter-branch".spec_bytes())
    } else if has_infix(m, "rebase".spec_bytes()) {
        Some("rebase".spec_bytes())
    } else if has_infix(m, "(forced update)".spec_bytes()) {
        Some("forced-update".spec_bytes())
    } else {
        None
    }
}

/// Whether `pat` occurs in `s`.
fn contains_bytes(s: &[u8], pat: &[u8]) -> (r: bool)
    ensures
        r == has_infix(s@, pat@),
{
    if pat.len() > s.len() {
        return false;
    }
    let last = s.len() - pat.len();
    let mut i: usize = 0;
    loop
        invariant
            last == s@.len() - pat@.len(),
            0 <= i <= last,
            forall|j: int| 0 <= j < i ==> #[trigger] s@.subrange(j, j + pat@.len()) != pat@,
        decreases last - i,
    {
        if has_prefix_exec(s, i, s.len(), pat) {
            assert(s@.subrange(i as int, i + pat@.len()) == pat@);
            return true;
        }
        if i == last {
            return false;
        }
        i = i + 1;
    }
}

/// Classify a reflog message as a history-rewriting operation, returning the
/// operation keyword if it is one (pure; the analyzer's decision core).
///
/// Recognized rewrites: `reset:`, any `rebase` variant, `filter-branch`,
/// `commit (amend)`, and a trailing `(forced update)` (e.g. a force-push).
pub fn classify_rewrite(message: &str) -> (r: Option<&'static str>)
    ensures
        match r {
            Some(op) => spec_classify(message.spec_bytes()) == Some(op.spec_bytes()),
            None => spec_classify(message.spec_bytes()) is None,
        },
{
    let m = message.as_bytes();
    if has_prefix_exec(m, 0, m.len(), "reset:".as_bytes()) {
        Some("reset")
    } else if contains_bytes(m, "commit (amend)".as_bytes()) {
        Some("amend")
    } else if contains_bytes(m, "filter-branch".as_bytes()) {
        Some("filter-branch")
    } else if contains_bytes(m, "rebase".as_bytes()) {
        Some("rebase")
    } else if contains_bytes(m, "(forced update)".as_bytes()) {
        Some("forced-update")
    } else {
        None
    }
}

/// A rewrite for each entry of `es` whose message classifies, in order.
pub open spec fn spec_audit_entries(ref_name: Seq<u8>, es: Seq<ReflogModel>) -> Seq<RewriteModel>
    decreases es.len(),
{
    if es.len() == 0 {
        seq![]
    } else {
        let e = es.last();
        spec_audit_entries(ref_name, es.drop_last()) + match spec_classify(e.message) {
            Some(op) => seq![
                RewriteModel { ref_name, old: e.old, new: e.new, operation: op, message: e.message },
            ],
            None => seq![],
        }
    }
}

/// Audit a set of reflog entries for `ref_name`, flagging history rewrites
/// (pure; side-effect free).
pub fn audit_reflog_entries(ref_name: &str, entries: &[ReflogEntry]) -> (r: Vec<ReflogAnomaly>)
    ensures
        rewrites_model(r@) == spec_audit_entries(ref_name.spec_bytes(), entries_model(entries@)),
{
    let ghost em = entries_model(entries@);
    let mut out: Vec<ReflogAnomaly> = Vec::new();
    let mut i: usize = 0;
    assert(em.take(0) =~= Seq::<ReflogModel>::empty());
    assert(rewrites_model(out@) =~= seq![]);
    while i < entries.len()
        invariant
            em == entries_model(entries@),
            em.len() == entries@.len(),
            0 <= i <= entries@.len(),
            rewrites_model(out@) == spec_audit_entries(ref_name.spec_bytes(), em.take(i as int)),
        decreases entries@.len() - i,
    {
        let e = &entries[i];
        assert(em[i as int] == e.model());
        assert(em.take(i + 1).drop_last() =~= em.take(i as int));
        let ghost before = rewrites_model(out@);
        match classify_rewrite(e.message.as_str()) {
            Some(op) => {
                let a = ReflogAnomaly::HistoryRewrite {
                    ref_name: ref_name.to_owned(),
                    old: e.old,
                    new: e.new,
                    operation: op.to_owned(),
                    message: e.message.clone(),
                };
                out.push(a);
                assert(rewrites_model(out@) =~= before.push(a.model()));
            },
            None => {},
        }
        assert(rewrites_model(out@) =~= spec_audit_entries(ref_name.spec_bytes(), em.take(i + 1)));
        i = i + 1;
    }
    assert(em.take(em.len() as int) =~= em);
    out
}

pub open spec fn rewrites_result(r: Result<Vec<ReflogAnomaly>, GitError>) -> Result<Seq<RewriteModel>, GitErrorModel> {
    match r {
        Ok(v) => Ok(rewrites_model(v@)),
        Err(e) => Err(e.model()),
    }
}

/// Read `refname`'s reflog from `repo` and audit it for history rewrites.
///
/// # Errors
/// Propagates any error encountered reading the reflog.
pub fn audit_reflog(repo: &GitRepo, refname: &str) -> (r: Result<Vec<ReflogAnomaly>, GitError>)
    ensures
        rewrites_result(r) == match spec_read_reflog(repo@.files, refname.spec_bytes()) {
            Ok(es) => Ok(spec_audit_entries(refname.spec_bytes(), es)),
            Err(k) => Err(k),
        },
{
    match repo.reflog(refname) {
        Ok(entries) => Ok(audit_reflog_entries(refname, entries.as_slice())),
        Err(e) => Err(e),
    }
}

} // verus!

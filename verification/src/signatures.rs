//! Signature-policy analysis: an unsigned commit in an otherwise-signed
//! history.
//!
//! When a repository's reachable history is predominantly signed, the absence
//! of a signature on a particular commit is a break in the prevailing signing
//! policy — consistent with a commit injected or forged outside the normal
//! signed workflow. It is a lead an examiner follows, not a conclusion: a
//! developer may simply have forgotten to sign.
use vstd::prelude::*;
use vstd::utf8::*;
use vstd::string::StringSliceAdditionalSpecFns;

use crate::commit::{CommitModel, CommitObject};
use crate::error::{GitError, GitErrorModel};
use crate::hash::{hex_encode, GitHash};
use crate::pack::append_range;
use crate::repo::{commits_model, spec_walk, GitRepo};
use crate::report::{count_text, evidence, evidence_model, Category, Evidence, Severity};
use crate::strings::{push_text, utf8_string};
use crate::text::{decimal, decimal_exec, lemma_decimal_ascii};

verus! {

broadcast use vstd::utf8::group_utf8_lib;

/// A signing-policy anomaly observed across a set of commits.
#[derive(Debug, Clone, PartialEq, Eq)]
pub enum SignatureAnomaly {
    /// An unsigned commit within a predominantly-signed history.
    UnsignedInSignedHistory {
        /// The unsigned commit's object hash.
        commit: GitHash,
        /// How many commits in the audited set were signed.
        signed_count: usize,
        /// Total commits in the audited set.
        total_count: usize,
    },
}

/// The note of an unsigned commit, as UTF-8 bytes.
pub open spec fn unsigned_note(signed_count: nat, total_count: nat) -> Seq<u8> {
    "commit is unsigned while ".spec_bytes() + decimal(signed_count) + " of ".spec_bytes() + decimal(
        total_count,
    ) + " reachable commits are signed; consistent with a commit injected outside the prevailing signing policy (a forgotten signature is a benign cause)".spec_bytes()
}

impl SignatureAnomaly {
    /// The stable, published anomaly code.
    pub fn code(&self) -> (r: &'static str)
        ensures
            r@ == "GIT-UNSIGNED-IN-SIGNED-HISTORY"@,
    {
        match self {
            SignatureAnomaly::UnsignedInSignedHistory { .. } => "GIT-UNSIGNED-IN-SIGNED-HISTORY",
        }
    }

    /// A real policy break, but a forgotten `-S` is a common benign cause, so
    /// it is graded Medium, not High.
    pub fn severity(&self) -> (r: Option<Severity>)
        ensures
            r == Some(Severity::Medium),
    {
        Some(Severity::Medium)
    }

    /// A break in cryptographic signing policy is an Integrity signal.
    pub fn category(&self) -> (r: Category)
        ensures
            r == Category::Integrity,
    {
        Category::Integrity
    }

    /// What was observed, and what it is consistent with.
    pub fn note(&self) -> (r: String)
        ensures
            match self {
                SignatureAnomaly::UnsignedInSignedHistory { signed_count, total_count, .. } =>
                    encode_utf8(r@) == unsigned_note(*signed_count as nat, *total_count as nat),
            },
    {
        match self {
            SignatureAnomaly::UnsignedInSignedHistory { signed_count, total_count, .. } => {
                let mut v: Vec<u8> = Vec::new();
                push_text(&mut v, "commit is unsigned while ");
                let s = decimal_exec(*signed_count as u64);
                append_range(&mut v, s.as_slice(), 0, s.len());
                push_text(&mut v, " of ");
                let t = decimal_exec(*total_count as u64);
                append_range(&mut v, t.as_slice(), 0, t.len());
                push_text(
                    &mut v,
                    " reachable commits are signed; consistent with a commit injected outside the prevailing signing policy (a forgotten signature is a benign cause)",
                );
                proof {
                    assert(s@.subrange(0, s@.len() as int) =~= s@);
                    assert(t@.subrange(0, t@.len() as int) =~= t@);
                    assert(v@ =~= unsigned_note(*signed_count as nat, *total_count as nat));
                    lemma_decimal_ascii(*signed_count as nat);
                    lemma_decimal_ascii(*total_count as nat);
                    crate::strings::lemma_ascii_valid_utf8(s@);
                    crate::strings::lemma_ascii_valid_utf8(t@);
                    let p1 = "commit is unsigned while ".spec_bytes();
                    let p2 = " of ".spec_bytes();
                    let p3 = " reachable commits are signed; consistent with a commit injected outside the prevailing signing policy (a forgotten signature is a benign cause)".spec_bytes();
                    assert(valid_utf8(p1) && valid_utf8(p2) && valid_utf8(p3));
                    assert(valid_utf8(p1 + s@));
                    assert(valid_utf8(p1 + s@ + p2));
                    assert(valid_utf8(p1 + s@ + p2 + t@));
                    assert(valid_utf8(p1 + s@ + p2 + t@ + p3));
                }
                utf8_string(v)
            },
        }
    }

    /// The commit and both counts.
    pub fn evidence(&self) -> (r: Vec<Evidence>)
        ensures
            match self {
                SignatureAnomaly::UnsignedInSignedHistory { commit, signed_count, total_count } =>
                    evidence_model(r@) == seq![
                        ("commit".spec_bytes(), hex_encode(commit.0@)),
                        ("signed_count".spec_bytes(), decimal(*signed_count as nat)),
                        ("total_count".spec_bytes(), decimal(*total_count as nat)),
                    ],
            },
    {
        match self {
            SignatureAnomaly::UnsignedInSignedHistory { commit, signed_count, total_count } => {
                let r = vec![
                    evidence("commit", commit.to_hex()),
                    evidence("signed_count", count_text(*signed_count)),
                    evidence("total_count", count_text(*total_count)),
                ];
                assert(evidence_model(r@) =~= seq![
                    ("commit".spec_bytes(), hex_encode(commit.0@)),
                    ("signed_count".spec_bytes(), decimal(*signed_count as nat)),
                    ("total_count".spec_bytes(), decimal(*total_count as nat)),
                ]);
                r
            },
        }
    }
}

/// How many of the commits are signed.
pub open spec fn signed_count(cs: Seq<CommitModel>) -> nat
    decreases cs.len(),
{
    if cs.len() == 0 {
        0
    } else {
        signed_count(cs.drop_last()) + if cs.last().is_signed {
            1nat
        } else {
            0nat
        }
    }
}

/// An anomaly for each unsigned commit, in order, with the given counts.
pub open spec fn unsigned_anomalies(cs: Seq<CommitModel>, signed: usize, total: usize) -> Seq<SignatureAnomaly>
    decreases cs.len(),
{
    if cs.len() == 0 {
        seq![]
    } else {
        unsigned_anomalies(cs.drop_last(), signed, total) + if cs.last().is_signed {
            seq![]
        } else {
            seq![
                SignatureAnomaly::UnsignedInSignedHistory {
                    commit: cs.last().hash,
                    signed_count: signed,
                    total_count: total,
                },
            ]
        }
    }
}

/// The set is predominantly signed: at least one commit and a strict
/// majority are signed.
pub open spec fn predominantly_signed(cs: Seq<CommitModel>) -> bool {
    signed_count(cs) > 0 && signed_count(cs) * 2 > cs.len()
}

/// Each unsigned commit of a predominantly-signed set; nothing otherwise.
pub open spec fn spec_audit_signatures(cs: Seq<CommitModel>) -> Seq<SignatureAnomaly> {
    if predominantly_signed(cs) {
        unsigned_anomalies(cs, signed_count(cs) as usize, cs.len() as usize)
    } else {
        seq![]
    }
}

proof fn lemma_signed_count_bound(cs: Seq<CommitModel>)
    ensures
        signed_count(cs) <= cs.len(),
    decreases cs.len(),
{
    if cs.len() > 0 {
        lemma_signed_count_bound(cs.drop_last());
    }
}

/// Audit a set of commits for the unsigned-in-signed-history anomaly (pure).
///
/// The set is "predominantly signed" when at least one commit is signed AND a
/// strict majority (`signed > total / 2`) are signed. Only then is an unsigned
/// commit anomalous; a fully- or mostly-unsigned history implies no signing
/// policy to break, so nothing is flagged.
pub fn audit_signatures(commits: &[CommitObject]) -> (r: Vec<SignatureAnomaly>)
    ensures
        r@ == spec_audit_signatures(commits_model(commits@)),
{
    let ghost cm = commits_model(commits@);
    let total_count = commits.len();
    let mut signed: usize = 0;
    let mut i: usize = 0;
    assert(cm.take(0) =~= Seq::<CommitModel>::empty());
    while i < total_count
        invariant
            cm == commits_model(commits@),
            cm.len() == commits@.len(),
            total_count == commits@.len(),
            0 <= i <= total_count,
            signed as nat == signed_count(cm.take(i as int)),
            signed <= i,
        decreases total_count - i,
    {
        assert(cm[i as int] == commits@[i as int].model());
        assert(cm.take(i + 1).drop_last() =~= cm.take(i as int));
        if commits[i].is_signed {
            signed = signed + 1;
        }
        i = i + 1;
    }
    assert(cm.take(cm.len() as int) =~= cm);
    let mut out: Vec<SignatureAnomaly> = Vec::new();
    if signed == 0 || signed <= total_count - signed {
        assert(out@ =~= spec_audit_signatures(cm));
        return out;
    }
    let mut j: usize = 0;
    while j < total_count
        invariant
            cm == commits_model(commits@),
            cm.len() == commits@.len(),
            total_count == commits@.len(),
            signed as nat == signed_count(cm),
            0 <= j <= total_count,
            out@ == unsigned_anomalies(cm.take(j as int), signed, total_count),
        decreases total_count - j,
    {
        assert(cm[j as int] == commits@[j as int].model());
        assert(cm.take(j + 1).drop_last() =~= cm.take(j as int));
        if !commits[j].is_signed {
            out.push(
                SignatureAnomaly::UnsignedInSignedHistory {
                    commit: commits[j].hash,
                    signed_count: signed,
                    total_count,
                },
            );
        }
        assert(out@ =~= unsigned_anomalies(cm.take(j + 1), signed, total_count));
        j = j + 1;
    }
    out
}

pub open spec fn signature_result(r: Result<Vec<SignatureAnomaly>, GitError>) -> Result<Seq<SignatureAnomaly>, GitErrorModel> {
    match r {
        Ok(v) => Ok(v@),
        Err(e) => Err(e.model()),
    }
}

/// Walk every commit reachable from `from` (first-parent) and audit their
/// signatures for the unsigned-in-signed-history anomaly.
///
/// # Errors
/// Propagates any read error encountered while walking commits.
pub fn audit_signatures_repo(repo: &GitRepo, from: GitHash) -> (r: Result<Vec<SignatureAnomaly>, GitError>)
    ensures
        signature_result(r) == match spec_walk(repo@, from) {
            Ok(cs) => Ok(spec_audit_signatures(cs)),
            Err(k) => Err(k),
        },
{
    match repo.commit_chain(from) {
        Ok(commits) => Ok(audit_signatures(commits.as_slice())),
        Err(e) => Err(e),
    }
}

/// Anomaly `a` names an unsigned commit of `cs` and carries the counts
/// `signed` of `total`.
pub open spec fn names_unsigned(a: SignatureAnomaly, cs: Seq<CommitModel>, signed: int, total: int) -> bool {
    match a {
        SignatureAnomaly::UnsignedInSignedHistory { commit, signed_count, total_count } => {
            &&& signed_count == signed
            &&& total_count == total
            &&& exists|i: int| 0 <= i < cs.len() && cs[i].hash == commit && !cs[i].is_signed
        },
    }
}

/// How many unsigned commits there are.
proof fn lemma_unsigned_anomalies_len(cs: Seq<CommitModel>, signed: usize, total: usize)
    ensures
        unsigned_anomalies(cs, signed, total).len() + signed_count(cs) == cs.len(),
    decreases cs.len(),
{
    if cs.len() > 0 {
        lemma_unsigned_anomalies_len(cs.drop_last(), signed, total);
    }
}

/// Every anomaly names an unsigned commit of `cs`, with the given counts.
proof fn lemma_unsigned_anomalies_members(cs: Seq<CommitModel>, signed: usize, total: usize)
    ensures
        forall|k: int| 0 <= k < unsigned_anomalies(cs, signed, total).len() ==>
            names_unsigned(#[trigger] unsigned_anomalies(cs, signed, total)[k], cs, signed as int, total as int),
    decreases cs.len(),
{
    if cs.len() > 0 {
        let d = cs.drop_last();
        lemma_unsigned_anomalies_members(d, signed, total);
        let u = unsigned_anomalies(cs, signed, total);
        let ud = unsigned_anomalies(d, signed, total);
        assert forall|k: int| 0 <= k < u.len() implies names_unsigned(#[trigger] u[k], cs, signed as int, total as int) by {
            if k < ud.len() {
                assert(u[k] == ud[k]);
                let SignatureAnomaly::UnsignedInSignedHistory { commit, .. } = ud[k];
                let i = choose|i: int| 0 <= i < d.len() && d[i].hash == commit && !d[i].is_signed;
                assert(cs[i] == d[i]);
            } else {
                assert(cs[cs.len() - 1] == cs.last());
            }
        }
    }
}

/// The signature audit flags nothing unless the set is predominantly signed
/// (some commit signed and a strict majority signed); then it flags exactly
/// as many commits as are unsigned, each one an unsigned commit of the set,
/// carrying the set's signed and total counts.
pub proof fn law_signature_policy(cs: Seq<CommitModel>)
    requires
        cs.len() <= usize::MAX,
    ensures
        !predominantly_signed(cs) ==> spec_audit_signatures(cs).len() == 0,
        predominantly_signed(cs) ==> spec_audit_signatures(cs).len() == cs.len() - signed_count(cs),
        forall|k: int| 0 <= k < spec_audit_signatures(cs).len() ==>
            names_unsigned(#[trigger] spec_audit_signatures(cs)[k], cs, signed_count(cs) as int, cs.len() as int),
{
    lemma_signed_count_bound(cs);
    let s = signed_count(cs) as usize;
    let t = cs.len() as usize;
    lemma_unsigned_anomalies_len(cs, s, t);
    lemma_unsigned_anomalies_members(cs, s, t);
}

} // verus!

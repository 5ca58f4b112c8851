//! Commit-time inversion: a commit whose committer timestamp precedes its
//! author timestamp. In a normal flow the committer time is at or after the
//! author time, so an inversion is consistent with timestamp backdating
//! (benign causes include cross-machine clock skew). An observation, not a
//! conclusion: the examiner draws that.
use vstd::prelude::*;
use vstd::utf8::*;
use vstd::string::StringSliceAdditionalSpecFns;

use crate::commit::{CommitModel, CommitObject};
use crate::error::{GitError, GitErrorModel};
use crate::hash::{hex_encode, GitHash};
use crate::repo::{commits_model, spec_walk, GitRepo};
use crate::report::{
    evidence, evidence_model, int_text, lemma_signed_decimal_ascii, Category, Evidence, Severity,
};
use crate::strings::{push_text, utf8_string};
use crate::text::signed_decimal;
use crate::pack::append_range;

verus! {

broadcast use vstd::utf8::group_utf8_lib;

/// A forensic anomaly observed in a Git object store.
#[derive(Debug, Clone, PartialEq, Eq)]
pub enum GitAnomaly {
    /// A commit's committer timestamp precedes its author timestamp.
    CommitterBeforeAuthor {
        /// The commit's object hash.
        commit: GitHash,
        /// Author timestamp (epoch seconds).
        author_time: i64,
        /// Committer timestamp (epoch seconds).
        committer_time: i64,
    },
}

/// The note of an inversion, as UTF-8 bytes.
pub open spec fn inversion_note(author_time: i64, committer_time: i64) -> Seq<u8> {
    "committer timestamp ".spec_bytes() + signed_decimal(committer_time as int)
        + " precedes author timestamp ".spec_bytes() + signed_decimal(author_time as int)
        + "; consistent with timestamp backdating (benign causes include cross-machine clock skew)".spec_bytes()
}

impl GitAnomaly {
    /// The stable, published anomaly code (scheme-prefixed SCREAMING-KEBAB).
    pub fn code(&self) -> (r: &'static str)
        ensures
            r@ == "GIT-COMMIT-TIME-INVERSION"@,
    {
        match self {
            GitAnomaly::CommitterBeforeAuthor { .. } => "GIT-COMMIT-TIME-INVERSION",
        }
    }

    /// An inversion is a real irregularity with a common benign cause (clock
    /// skew), so it is graded Medium, not High.
    pub fn severity(&self) -> (r: Option<Severity>)
        ensures
            r == Some(Severity::Medium),
    {
        match self {
            GitAnomaly::CommitterBeforeAuthor { .. } => Some(Severity::Medium),
        }
    }

    /// The commit's temporal biography — backdating is a History signal.
    pub fn category(&self) -> (r: Category)
        ensures
            r == Category::History,
    {
        Category::History
    }

    /// What was observed, and what it is consistent with.
    pub fn note(&self) -> (r: String)
        ensures
            match self {
                GitAnomaly::CommitterBeforeAuthor { author_time, committer_time, .. } =>
                    encode_utf8(r@) == inversion_note(*author_time, *committer_time),
            },
    {
        match self {
            GitAnomaly::CommitterBeforeAuthor { author_time, committer_time, .. } => {
                let mut v: Vec<u8> = Vec::new();
                push_text(&mut v, "committer timestamp ");
                let c = crate::text::signed_decimal_exec(*committer_time);
                append_range(&mut v, c.as_slice(), 0, c.len());
                push_text(&mut v, " precedes author timestamp ");
                let a = crate::text::signed_decimal_exec(*author_time);
                append_range(&mut v, a.as_slice(), 0, a.len());
                push_text(
                    &mut v,
                    "; consistent with timestamp backdating (benign causes include cross-machine clock skew)",
                );
                proof {
                    assert(c@.subrange(0, c@.len() as int) =~= c@);
                    assert(a@.subrange(0, a@.len() as int) =~= a@);
                    lemma_signed_decimal_ascii(*committer_time as int);
                    lemma_signed_decimal_ascii(*author_time as int);
                    assert(v@ =~= inversion_note(*author_time, *committer_time));
                    let p1 = "committer timestamp ".spec_bytes();
                    let p2 = " precedes author timestamp ".spec_bytes();
                    let p3 = "; consistent with timestamp backdating (benign causes include cross-machine clock skew)".spec_bytes();
                    assert(valid_utf8(p1) && valid_utf8(p2) && valid_utf8(p3));
                    assert(valid_utf8(p1 + c@));
                    assert(valid_utf8(p1 + c@ + p2));
                    assert(valid_utf8(p1 + c@ + p2 + a@));
                    assert(valid_utf8(p1 + c@ + p2 + a@ + p3));
                }
                utf8_string(v)
            },
        }
    }

    /// The commit and both timestamps.
    pub fn evidence(&self) -> (r: Vec<Evidence>)
        ensures
            match self {
                GitAnomaly::CommitterBeforeAuthor { commit, author_time, committer_time } =>
                    evidence_model(r@) == seq![
                        ("commit".spec_bytes(), hex_encode(commit.0@)),
                        ("author_time".spec_bytes(), signed_decimal(*author_time as int)),
                        ("committer_time".spec_bytes(), signed_decimal(*committer_time as int)),
                    ],
            },
    {
        match self {
            GitAnomaly::CommitterBeforeAuthor { commit, author_time, committer_time } => {
                let r = vec![
                    evidence("commit", commit.to_hex()),
                    evidence("author_time", int_text(*author_time)),
                    evidence("committer_time", int_text(*committer_time)),
                ];
                assert(evidence_model(r@) =~= seq![
                    ("commit".spec_bytes(), hex_encode(commit.0@)),
                    ("author_time".spec_bytes(), signed_decimal(*author_time as int)),
                    ("committer_time".spec_bytes(), signed_decimal(*committer_time as int)),
                ]);
                r
            },
        }
    }
}

/// The anomalies of one commit: an inversion when the committer time is
/// strictly before the author time.
pub open spec fn spec_audit_commit(c: CommitModel) -> Seq<GitAnomaly> {
    if c.committer.timestamp < c.author.timestamp {
        seq![
            GitAnomaly::CommitterBeforeAuthor {
                commit: c.hash,
                author_time: c.author.timestamp,
                committer_time: c.committer.timestamp,
            },
        ]
    } else {
        seq![]
    }
}

/// The anomalies of each commit in turn.
pub open spec fn audit_commits(cs: Seq<CommitModel>) -> Seq<GitAnomaly>
    decreases cs.len(),
{
    if cs.len() == 0 {
        seq![]
    } else {
        audit_commits(cs.drop_last()) + spec_audit_commit(cs.last())
    }
}

/// Audit a single parsed commit for anomalies (pure; side-effect free).
pub fn audit_commit(commit: &CommitObject) -> (r: Vec<GitAnomaly>)
    ensures
        r@ == spec_audit_commit(commit.model()),
{
    let mut out: Vec<GitAnomaly> = Vec::new();
    if commit.committer.timestamp < commit.author.timestamp {
        out.push(
            GitAnomaly::CommitterBeforeAuthor {
                commit: commit.hash,
                author_time: commit.author.timestamp,
                committer_time: commit.committer.timestamp,
            },
        );
    }
    assert(out@ =~= spec_audit_commit(commit.model()));
    out
}

pub open spec fn anomalies_result(r: Result<Vec<GitAnomaly>, GitError>) -> Result<Seq<GitAnomaly>, GitErrorModel> {
    match r {
        Ok(v) => Ok(v@),
        Err(e) => Err(e.model()),
    }
}

/// Audit every commit reachable from `from` (first-parent walk) in `repo`.
///
/// # Errors
/// Propagates any read error encountered while walking commits.
pub fn audit_repo(repo: &GitRepo, from: GitHash) -> (r: Result<Vec<GitAnomaly>, GitError>)
    ensures
        anomalies_result(r) == match spec_walk(repo@, from) {
            Ok(cs) => Ok(audit_commits(cs)),
            Err(k) => Err(k),
        },
{
    let commits = match repo.commit_chain(from) {
        Ok(c) => c,
        Err(e) => return Err(e),
    };
    let ghost cm = commits_model(commits@);
    let mut out: Vec<GitAnomaly> = Vec::new();
    let mut i: usize = 0;
    assert(cm.take(0) =~= Seq::<CommitModel>::empty());
    while i < commits.len()
        invariant
            cm == commits_model(commits@),
            cm.len() == commits@.len(),
            0 <= i <= commits@.len(),
            out@ == audit_commits(cm.take(i as int)),
        decreases commits@.len() - i,
    {
        let found = audit_commit(&commits[i]);
        assert(cm[i as int] == commits@[i as int].model());
        assert(cm.take(i + 1).drop_last() =~= cm.take(i as int));
        let mut found = found;
        out.append(&mut found);
        i = i + 1;
    }
    assert(cm.take(cm.len() as int) =~= cm);
    Ok(out)
}

} // verus!

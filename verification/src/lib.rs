//! A reader for the Git object store — loose objects, packfiles with delta
//! chains, refs, commits, trees and reflogs, over an image of a `.git`
//! directory — and a forensic auditor over it that grades what it observes:
//! backdated commits, rewritten history, unsigned commits in a signed
//! history, attribution timelines and objects reachable from no ref.
pub mod error;
pub mod hash;
pub mod strings;
pub mod text;
pub mod commit;
pub mod tree;
pub mod object;
pub mod checksum;
pub mod loose;
pub mod reflog;
pub mod pack;
pub mod index;
pub mod files;
pub mod repo;
pub mod refs;
pub mod seqs;
pub mod attribution;
pub mod report;
pub mod anomaly;
pub mod signatures;
pub mod rewrites;
pub mod reachability;
pub mod unreachable;

pub use anomaly::{audit_commit, audit_repo, GitAnomaly};
pub use attribution::{attribution_repo, attribution_timeline, distinct_identities, AttributionEvent, Role};
pub use commit::{CommitObject, Signature};
pub use error::GitError;
pub use files::{FileData, LooseFile, PackFile, RepoFile, RepoFiles};
pub use hash::GitHash;
pub use object::{ObjectKind, RawObject};
pub use reflog::{parse_reflog, ReflogEntry};
pub use repo::GitRepo;
pub use report::{Category, Evidence, Severity, ANALYZER};
pub use rewrites::{audit_reflog, audit_reflog_entries, classify_rewrite, ReflogAnomaly};
pub use signatures::{audit_signatures, audit_signatures_repo, SignatureAnomaly};
pub use tree::{TreeEntry, TreeObject};
pub use unreachable::{audit_unreachable, UnreachableObject};

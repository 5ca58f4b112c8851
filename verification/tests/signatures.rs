use git_forensic::{audit_signatures, Category, CommitObject, GitHash, Severity, Signature, SignatureAnomaly};

fn sig() -> Signature {
    Signature { name: "A".into(), email: "a@b.x".into(), timestamp: 100, tz_offset_secs: 0 }
}

fn commit(hex: &str, is_signed: bool) -> CommitObject {
    CommitObject {
        hash: GitHash::from_hex(hex).unwrap(),
        tree: GitHash::from_hex("89abcdef0123456789abcdef0123456789abcdef").unwrap(),
        parents: vec![],
        author: sig(),
        committer: sig(),
        message: "m".into(),
        is_signed,
    }
}

const A: &str = "0123456789abcdef0123456789abcdef01234567";
const B: &str = "1123456789abcdef0123456789abcdef01234567";
const C: &str = "2123456789abcdef0123456789abcdef01234567";

#[test]
fn flags_the_lone_unsigned_in_a_signed_majority() {
    let commits = vec![commit(A, true), commit(B, true), commit(C, false)];
    let found = audit_signatures(&commits);
    assert_eq!(found.len(), 1);
    let SignatureAnomaly::UnsignedInSignedHistory { commit, signed_count, total_count } = &found[0];
    assert_eq!(commit.to_hex(), C);
    assert_eq!(*signed_count, 2);
    assert_eq!(*total_count, 3);
}

#[test]
fn no_findings_when_all_signed() {
    let commits = vec![commit(A, true), commit(B, true)];
    assert!(audit_signatures(&commits).is_empty());
}

#[test]
fn no_findings_when_all_unsigned() {
    let commits = vec![commit(A, false), commit(B, false)];
    assert!(audit_signatures(&commits).is_empty());
}

#[test]
fn no_findings_without_a_signed_majority() {
    let commits = vec![commit(A, true), commit(B, false)];
    assert!(audit_signatures(&commits).is_empty());
}

#[test]
fn empty_set_is_clean() {
    assert!(audit_signatures(&[]).is_empty());
}

#[test]
fn every_unsigned_commit_of_a_majority_is_flagged_in_order() {
    let commits = vec![
        commit(B, false),
        commit(A, true),
        commit(A, true),
        commit(A, true),
        commit(C, false),
    ];
    let found = audit_signatures(&commits);
    assert_eq!(found.len(), 2);
    let SignatureAnomaly::UnsignedInSignedHistory { commit: first, .. } = &found[0];
    let SignatureAnomaly::UnsignedInSignedHistory { commit: second, signed_count, total_count } = &found[1];
    assert_eq!(first.to_hex(), B);
    assert_eq!(second.to_hex(), C);
    assert_eq!((*signed_count, *total_count), (3, 5));
}

#[test]
fn signature_finding_grades_and_notes() {
    let found = audit_signatures(&[commit(A, true), commit(B, true), commit(C, false)]);
    let a = &found[0];
    assert_eq!(a.code(), "GIT-UNSIGNED-IN-SIGNED-HISTORY");
    assert_eq!(a.severity(), Some(Severity::Medium));
    assert_eq!(a.category(), Category::Integrity);
    assert_eq!(
        a.note(),
        "commit is unsigned while 2 of 3 reachable commits are signed; consistent with a commit injected outside the prevailing signing policy (a forgotten signature is a benign cause)"
    );
    let ev = a.evidence();
    assert_eq!(ev[0].value, C);
    assert_eq!(ev[1].field, "signed_count");
    assert_eq!(ev[1].value, "2");
    assert_eq!(ev[2].value, "3");
}

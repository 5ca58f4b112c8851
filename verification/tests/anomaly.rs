use git_forensic::{audit_commit, Category, CommitObject, GitAnomaly, GitHash, Severity, Signature, ANALYZER};

fn sig(ts: i64) -> Signature {
    Signature { name: "A".into(), email: "a@b.x".into(), timestamp: ts, tz_offset_secs: 0 }
}

fn commit(author_time: i64, committer_time: i64) -> CommitObject {
    CommitObject {
        hash: GitHash::from_hex("0123456789abcdef0123456789abcdef01234567").unwrap(),
        tree: GitHash::from_hex("89abcdef0123456789abcdef0123456789abcdef").unwrap(),
        parents: vec![],
        author: sig(author_time),
        committer: sig(committer_time),
        message: "m".into(),
        is_signed: false,
    }
}

#[test]
fn flags_committer_before_author() {
    let anomalies = audit_commit(&commit(1_000, 900));
    assert_eq!(anomalies.len(), 1);
    assert!(matches!(anomalies[0], GitAnomaly::CommitterBeforeAuthor { .. }));
}

#[test]
fn normal_commit_has_no_anomaly() {
    assert!(audit_commit(&commit(1_000, 1_000)).is_empty());
    assert!(audit_commit(&commit(1_000, 1_050)).is_empty());
}

#[test]
fn lib_finding_carries_code_severity_category() {
    let a = audit_commit(&commit(1_000, 900));
    assert_eq!(a[0].code(), "GIT-COMMIT-TIME-INVERSION");
    assert_eq!(a[0].severity(), Some(Severity::Medium));
    assert_eq!(a[0].category(), Category::History);
    assert_eq!(ANALYZER, "git-forensic");
}

#[test]
fn inversion_note_and_evidence_render_both_times() {
    let a = audit_commit(&commit(1_000, -5));
    assert_eq!(
        a[0].note(),
        "committer timestamp -5 precedes author timestamp 1000; consistent with timestamp backdating (benign causes include cross-machine clock skew)"
    );
    let ev = a[0].evidence();
    assert_eq!(ev.len(), 3);
    assert_eq!(ev[0].field, "commit");
    assert_eq!(ev[0].value, "0123456789abcdef0123456789abcdef01234567");
    assert_eq!(ev[1].field, "author_time");
    assert_eq!(ev[1].value, "1000");
    assert_eq!(ev[2].field, "committer_time");
    assert_eq!(ev[2].value, "-5");
}

#[test]
fn inversion_carries_both_timestamps() {
    let a = audit_commit(&commit(i64::MAX, i64::MIN));
    let GitAnomaly::CommitterBeforeAuthor { author_time, committer_time, commit } = &a[0];
    assert_eq!(*author_time, i64::MAX);
    assert_eq!(*committer_time, i64::MIN);
    assert_eq!(commit.to_hex(), "0123456789abcdef0123456789abcdef01234567");
    assert!(a[0].note().contains("-9223372036854775808"));
}

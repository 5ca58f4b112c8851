use git_forensic::{audit_reflog_entries, classify_rewrite, Category, GitHash, ReflogAnomaly, ReflogEntry, Severity};

#[test]
fn classifies_each_rewrite_kind() {
    assert_eq!(classify_rewrite("reset: moving to HEAD~1"), Some("reset"));
    assert_eq!(classify_rewrite("rebase (finish): refs/heads/x"), Some("rebase"));
    assert_eq!(classify_rewrite("rebase -i (start): x"), Some("rebase"));
    assert_eq!(classify_rewrite("filter-branch: rewrite"), Some("filter-branch"));
    assert_eq!(classify_rewrite("commit (amend): reworded"), Some("amend"));
    assert_eq!(classify_rewrite("update by push (forced update)"), Some("forced-update"));
}

#[test]
fn does_not_flag_ordinary_operations() {
    assert!(classify_rewrite("commit: add feature").is_none());
    assert!(classify_rewrite("commit (initial): first").is_none());
    assert!(classify_rewrite("merge topic: Fast-forward").is_none());
    assert!(classify_rewrite("checkout: moving from a to b").is_none());
    assert!(classify_rewrite("clone: from https://x").is_none());
}

#[test]
fn reset_only_counts_at_the_start() {
    assert_eq!(classify_rewrite("checkout: reset: not really"), None);
    assert_eq!(classify_rewrite("reset:"), Some("reset"));
}

#[test]
fn earlier_keywords_win() {
    assert_eq!(classify_rewrite("commit (amend): rebase"), Some("amend"));
    assert_eq!(classify_rewrite("rebase (forced update)"), Some("rebase"));
}

fn entry(message: &str) -> ReflogEntry {
    ReflogEntry {
        old: GitHash::from_hex("0123456789abcdef0123456789abcdef01234567").unwrap(),
        new: GitHash::from_hex("89abcdef0123456789abcdef0123456789abcdef").unwrap(),
        name: "A".into(),
        email: "a@b.x".into(),
        timestamp: 100,
        tz_offset: "+0000".into(),
        message: message.into(),
    }
}

#[test]
fn audit_flags_only_rewrites() {
    let entries = vec![
        entry("commit (initial): first"),
        entry("commit: second"),
        entry("reset: moving to HEAD~1"),
    ];
    let found = audit_reflog_entries("HEAD", &entries);
    assert_eq!(found.len(), 1);
    let ReflogAnomaly::HistoryRewrite { operation, .. } = &found[0];
    assert_eq!(operation, "reset");
}

#[test]
fn reflog_finding_carries_code_severity_category() {
    let found = audit_reflog_entries("HEAD", &[entry("commit (amend): reworded")]);
    assert_eq!(found.len(), 1);
    let a = &found[0];
    assert_eq!(a.code(), "GIT-HISTORY-REWRITE");
    assert_eq!(a.severity(), Some(Severity::Medium));
    assert_eq!(a.category(), Category::History);
    assert_eq!(
        a.note(),
        "reflog of HEAD records a amend operation; consistent with history rewriting (the prior tip remains resurrectable from the reflog and object store)"
    );
    let ev = a.evidence();
    assert_eq!(ev.len(), 3);
    assert_eq!(ev[0].field, "old");
    assert_eq!(ev[0].value, "0123456789abcdef0123456789abcdef01234567");
    assert_eq!(ev[1].value, "89abcdef0123456789abcdef0123456789abcdef");
    assert_eq!(ev[2].field, "message");
    assert_eq!(ev[2].value, "commit (amend): reworded");
}

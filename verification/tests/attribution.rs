use git_forensic::{attribution_timeline, distinct_identities, CommitObject, GitHash, Role, Signature};

fn sig(name: &str, ts: i64, tz: i32) -> Signature {
    Signature { name: name.into(), email: format!("{name}@x"), timestamp: ts, tz_offset_secs: tz }
}

fn commit(hex: &str, author: Signature, committer: Signature) -> CommitObject {
    CommitObject {
        hash: GitHash::from_hex(hex).unwrap(),
        tree: GitHash::from_hex("89abcdef0123456789abcdef0123456789abcdef").unwrap(),
        parents: vec![],
        author,
        committer,
        message: "m".into(),
        is_signed: false,
    }
}

#[test]
fn timeline_is_time_ordered_author_before_committer() {
    let c1 = commit("0123456789abcdef0123456789abcdef01234567", sig("alice", 1_000, 0), sig("bob", 2_000, 3600));
    let c2 = commit("1123456789abcdef0123456789abcdef01234567", sig("carol", 1_500, -7200), sig("carol", 1_500, -7200));
    let tl = attribution_timeline(&[c1, c2]);
    let times: Vec<i64> = tl.iter().map(|e| e.timestamp).collect();
    assert_eq!(times, vec![1_000, 1_500, 1_500, 2_000]);
    assert_eq!(tl[0].name, "alice");
    assert_eq!(tl[0].role, Role::Author);
    assert_eq!(tl[1].role, Role::Author);
    assert_eq!(tl[2].role, Role::Committer);
    assert_eq!(tl[3].name, "bob");
    assert_eq!(tl[3].tz_offset_secs, 3600);
}

#[test]
fn distinct_identities_dedup_in_first_seen_order() {
    let c = commit("0123456789abcdef0123456789abcdef01234567", sig("alice", 1, 0), sig("bob", 2, 0));
    let ids = distinct_identities(std::slice::from_ref(&c));
    assert_eq!(ids, vec![("alice".to_string(), "alice@x".to_string()), ("bob".to_string(), "bob@x".to_string())]);
    let solo = commit("1123456789abcdef0123456789abcdef01234567", sig("alice", 1, 0), sig("alice", 2, 0));
    assert_eq!(distinct_identities(&[solo]).len(), 1);
}

#[test]
fn committer_before_author_at_a_later_time_still_sorts_by_time() {
    // A committer event earlier than another commit's author event comes first.
    let c1 = commit("0123456789abcdef0123456789abcdef01234567", sig("a", 50, 0), sig("b", 10, 0));
    let c2 = commit("1123456789abcdef0123456789abcdef01234567", sig("c", 10, 0), sig("d", 60, 0));
    let tl = attribution_timeline(&[c1, c2]);
    let names: Vec<&str> = tl.iter().map(|e| e.name.as_str()).collect();
    // At time 10 the author (c) comes before the committer (b).
    assert_eq!(names, vec!["c", "b", "a", "d"]);
    assert_eq!(tl.len(), 4);
}

#[test]
fn equal_events_keep_commit_order() {
    let c1 = commit("0123456789abcdef0123456789abcdef01234567", sig("x", 5, 0), sig("y", 5, 0));
    let c2 = commit("1123456789abcdef0123456789abcdef01234567", sig("z", 5, 0), sig("w", 5, 0));
    let tl = attribution_timeline(&[c1, c2]);
    let names: Vec<&str> = tl.iter().map(|e| e.name.as_str()).collect();
    assert_eq!(names, vec!["x", "z", "y", "w"]);
    assert_eq!(tl[0].commit.to_hex(), "0123456789abcdef0123456789abcdef01234567");
}

#[test]
fn identities_across_commits_are_listed_once() {
    let c1 = commit("0123456789abcdef0123456789abcdef01234567", sig("a", 1, 0), sig("b", 2, 0));
    let c2 = commit("1123456789abcdef0123456789abcdef01234567", sig("b", 3, 0), sig("c", 4, 0));
    let ids = distinct_identities(&[c1, c2]);
    let names: Vec<&str> = ids.iter().map(|p| p.0.as_str()).collect();
    assert_eq!(names, vec!["a", "b", "c"]);
}

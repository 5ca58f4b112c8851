use git_forensic::refs::{list_refs, list_refs_checked, resolve_ref};
use git_forensic::{FileData, GitError, GitRepo, RepoFile, RepoFiles};

fn file(path: &str, data: &[u8]) -> RepoFile {
    RepoFile { path: path.to_string(), data: FileData::Bytes(data.to_vec()) }
}

const MAIN: &str = "1111111111111111111111111111111111111111";
const TOPIC: &str = "2222222222222222222222222222222222222222";
const PACKED: &str = "3333333333333333333333333333333333333333";

#[test]
fn list_refs_checked_ok_when_refs_genuinely_absent() {
    assert_eq!(list_refs_checked(&vec![], false).unwrap(), Vec::new());
}

#[test]
fn list_refs_checked_errs_on_unreadable_refs() {
    let files = vec![file("HEAD", b"ref: refs/heads/main\n")];
    assert!(matches!(list_refs_checked(&files, true), Err(GitError::Io(_))));
    assert!(list_refs(&files, true).is_empty());
}

#[test]
fn lists_loose_then_packed_then_head() {
    let files = vec![
        file("HEAD", b"ref: refs/heads/main\n"),
        file("packed-refs", format!("# pack-refs with: peeled\n{PACKED} refs/tags/v1\n^{TOPIC}\n{TOPIC} refs/heads/main\n").as_bytes()),
        file("refs/heads/main", format!("{MAIN}\n").as_bytes()),
        file("refs/heads/feature/sub", format!("{TOPIC}\n").as_bytes()),
        file("logs/HEAD", b"not a ref"),
    ];
    let refs = list_refs_checked(&files, false).unwrap();
    let names: Vec<(&str, String)> = refs.iter().map(|(n, h)| (n.as_str(), h.to_hex())).collect();
    assert_eq!(
        names,
        vec![
            ("refs/heads/main", MAIN.to_string()),
            ("refs/heads/feature/sub", TOPIC.to_string()),
            ("refs/tags/v1", PACKED.to_string()),
            ("HEAD", MAIN.to_string()),
        ]
    );
}

#[test]
fn nested_ref_name_is_slash_canonical_on_every_host() {
    let files = vec![file("refs/heads/feature/sub", format!("{TOPIC}\n").as_bytes())];
    let refs = list_refs(&files, false);
    assert!(refs.iter().any(|(n, _)| n == "refs/heads/feature/sub"));
    assert!(refs.iter().all(|(n, _)| !n.contains('\\')));
}

#[test]
fn crlf_packed_refs_parse_like_a_windows_authored_git() {
    let packed = format!("# pack-refs with: peeled fully-peeled sorted\r\n{MAIN} refs/heads/crlf-branch\r\n");
    let files = vec![file("packed-refs", packed.as_bytes())];
    let refs = list_refs(&files, false);
    let found = refs.iter().find(|(n, _)| n == "refs/heads/crlf-branch");
    assert!(found.is_some());
    assert_eq!(found.unwrap().1.to_hex(), MAIN);
}

#[test]
fn list_refs_reads_packed_refs() {
    let files = vec![
        file("HEAD", b"ref: refs/heads/main\n"),
        file("packed-refs", format!("{MAIN} refs/heads/main\n").as_bytes()),
    ];
    let refs = list_refs(&files, false);
    assert!(refs.iter().any(|(name, _)| name == "refs/heads/main"));
}

#[test]
fn symbolic_refs_resolve_through_loose_files_only() {
    // A branch that lives only in packed-refs is listed, but HEAD pointing at
    // it does not resolve (refs are resolved by their files).
    let files = vec![
        file("HEAD", b"ref: refs/heads/main\n"),
        file("packed-refs", format!("{MAIN} refs/heads/main\n").as_bytes()),
    ];
    let refs = list_refs(&files, false);
    assert_eq!(refs.len(), 1);
    assert!(matches!(resolve_ref(&files, "HEAD"), Err(GitError::RefNotFound(_))));
}

#[test]
fn unresolvable_loose_ref_is_skipped() {
    let files = vec![
        file("refs/heads/broken", b"not a hash\n"),
        file("refs/heads/main", format!("{MAIN}\n").as_bytes()),
    ];
    let refs = list_refs_checked(&files, false).unwrap();
    assert_eq!(refs.len(), 1);
    assert_eq!(refs[0].0, "refs/heads/main");
}

#[test]
fn unreadable_loose_ref_fails_the_listing() {
    let files = vec![RepoFile { path: "refs/heads/main".to_string(), data: FileData::Unreadable("Permission denied (os error 13)".to_string()) }];
    assert!(matches!(list_refs_checked(&files, false), Err(GitError::Io(_))));
}

#[test]
fn unreadable_packed_refs_fails_the_listing() {
    let files = vec![RepoFile { path: "packed-refs".to_string(), data: FileData::Unreadable("Permission denied (os error 13)".to_string()) }];
    assert!(matches!(list_refs_checked(&files, false), Err(GitError::Io(_))));
    let bad = vec![file("packed-refs", &[0xff, 0xfe])];
    assert!(matches!(list_refs_checked(&bad, false), Err(GitError::Io(_))));
}

#[test]
fn resolve_ref_trims_and_follows_symbolic_refs() {
    let files = vec![
        file("HEAD", b"  ref: refs/heads/main \n"),
        file("refs/heads/main", format!("\t{MAIN}\r\n").as_bytes()),
    ];
    assert_eq!(resolve_ref(&files, "HEAD").unwrap().to_hex(), MAIN);
    assert!(matches!(resolve_ref(&files, "refs/heads/x"), Err(GitError::RefNotFound(_))));
}

#[test]
fn resolve_nonexistent_ref_returns_err() {
    let repo = GitRepo::open(
        "repo",
        Some(RepoFiles { files: vec![file("HEAD", b"ref: refs/heads/main\n")], refs_unreadable: false, loose: vec![], pack_dir_readable: false, packs: vec![] }),
        None,
    )
    .unwrap();
    assert!(repo.resolve_ref("refs/heads/does-not-exist").is_err());
    assert!(repo.head().is_err());
    assert!(repo.all_refs().is_empty());
    assert!(repo.all_refs_checked().unwrap().is_empty());
}

#[test]
fn unreadable_ref_reports_what_reading_met() {
    let files = vec![RepoFile { path: "refs/heads/main".to_string(), data: FileData::Unreadable("Permission denied (os error 13)".to_string()) }];
    match resolve_ref(&files, "refs/heads/main") {
        Err(GitError::Io(m)) => assert_eq!(m, "Permission denied (os error 13)"),
        other => panic!("unexpected {other:?}"),
    }
}

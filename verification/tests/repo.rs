use std::io::Write;

use flate2::write::ZlibEncoder;
use flate2::Compression;
use git_forensic::{
    attribution_repo, audit_repo, audit_signatures_repo, FileData, GitAnomaly, GitError, GitHash, GitRepo, LooseFile,
    ObjectKind, RepoFile, RepoFiles,
};
use sha1::{Digest, Sha1};

fn object(kind: &str, body: &[u8]) -> (GitHash, LooseFile) {
    let mut raw = format!("{kind} {}\0", body.len()).into_bytes();
    raw.extend_from_slice(body);
    let digest = Sha1::digest(&raw);
    let hash = GitHash::from_bytes(&digest[..]).unwrap();
    let mut enc = ZlibEncoder::new(Vec::new(), Compression::default());
    enc.write_all(&raw).unwrap();
    let z = enc.finish().unwrap();
    let hex = hash.to_hex();
    (hash, LooseFile { dir: hex[..2].to_string(), name: hex[2..].to_string(), data: FileData::Bytes(z) })
}

fn tree_body(entries: &[(&str, &str, GitHash)]) -> Vec<u8> {
    let mut out = Vec::new();
    for (mode, name, hash) in entries {
        out.extend_from_slice(format!("{mode} {name}\0").as_bytes());
        out.extend_from_slice(hash.as_bytes());
    }
    out
}

fn commit_body(tree: &GitHash, parents: &[GitHash], author_ts: i64, committer_ts: i64, msg: &str) -> Vec<u8> {
    let mut s = format!("tree {}\n", tree.to_hex());
    for p in parents {
        s.push_str(&format!("parent {}\n", p.to_hex()));
    }
    s.push_str(&format!("author Ann <ann@x> {author_ts} +0100\n"));
    s.push_str(&format!("committer Cid <cid@x> {committer_ts} -0230\n"));
    s.push_str(&format!("\n{msg}\n"));
    s.into_bytes()
}

fn file(path: &str, data: &[u8]) -> RepoFile {
    RepoFile { path: path.to_string(), data: FileData::Bytes(data.to_vec()) }
}

struct Fixture {
    files: RepoFiles,
    blob1: GitHash,
    blob2: GitHash,
    tree1: GitHash,
    tree2: GitHash,
    c1: GitHash,
    c2: GitHash,
}

/// Two commits on `main`: the first adds `f` = "hello\n", the second changes
/// it to "world\n". `backdate` makes the second commit's committer time
/// precede its author time.
fn two_commits(backdate: bool) -> Fixture {
    let (blob1, lb1) = object("blob", b"hello\n");
    let (tree1, lt1) = object("tree", &tree_body(&[("100644", "f", blob1)]));
    let (c1, lc1) = object("commit", &commit_body(&tree1, &[], 1000, 1000, "first"));
    let (blob2, lb2) = object("blob", b"world\n");
    let (tree2, lt2) = object("tree", &tree_body(&[("100644", "f", blob2)]));
    let committer = if backdate { 1500 } else { 2500 };
    let (c2, lc2) = object("commit", &commit_body(&tree2, &[c1], 2000, committer, "second"));
    let files = vec![
        file("HEAD", b"ref: refs/heads/main\n"),
        file("refs/heads/main", format!("{}\n", c2.to_hex()).as_bytes()),
    ];
    Fixture {
        files: RepoFiles {
            files,
            refs_unreadable: false,
            loose: vec![lb1, lt1, lc1, lb2, lt2, lc2],
            pack_dir_readable: true,
            packs: vec![],
        },
        blob1,
        blob2,
        tree1,
        tree2,
        c1,
        c2,
    }
}

fn open(files: RepoFiles) -> GitRepo {
    GitRepo::open("repo", Some(files), None).unwrap()
}

#[test]
fn open_non_repo_returns_err() {
    assert!(GitRepo::open("repo", None, None).is_err());
}

#[test]
fn open_falls_back_to_the_dot_git_directory() {
    let fix = two_commits(false);
    let repo = GitRepo::open("repo", None, Some(fix.files)).unwrap();
    assert_eq!(repo.head().unwrap(), fix.c2);
}

#[test]
fn head_resolves_through_the_symbolic_ref() {
    let fix = two_commits(false);
    let c2 = fix.c2;
    let repo = open(fix.files);
    assert_eq!(repo.head().unwrap(), c2);
    assert_eq!(repo.resolve_ref("refs/heads/main").unwrap(), c2);
    assert_eq!(repo.head().unwrap().to_hex().len(), 40);
}

#[test]
fn bare_hex_resolves_to_itself() {
    let fix = two_commits(false);
    let repo = open(fix.files);
    let hex = "0123456789abcdef0123456789abcdef01234567";
    assert_eq!(repo.resolve_ref(hex).unwrap().to_hex(), hex);
}

#[test]
fn resolve_missing_ref_is_ref_not_found() {
    let fix = two_commits(false);
    let repo = open(fix.files);
    assert!(matches!(repo.resolve_ref("refs/heads/nope"), Err(GitError::RefNotFound(_))));
}

#[test]
fn symbolic_ref_cycle_ends_in_ref_not_found() {
    let files = RepoFiles {
        files: vec![file("HEAD", b"ref: refs/heads/a\n"), file("refs/heads/a", b"ref: HEAD\n")],
        refs_unreadable: false,
        loose: vec![],
        pack_dir_readable: false,
        packs: vec![],
    };
    let repo = open(files);
    assert!(matches!(repo.head(), Err(GitError::RefNotFound(_))));
}

#[test]
fn reads_the_head_commit() {
    let fix = two_commits(false);
    let (c1, c2, tree2) = (fix.c1, fix.c2, fix.tree2);
    let repo = open(fix.files);
    let c = repo.read_commit(&c2).unwrap();
    assert_eq!(c.hash, c2);
    assert_eq!(c.tree, tree2);
    assert_eq!(c.parents, vec![c1]);
    assert_eq!(c.author.name, "Ann");
    assert_eq!(c.author.email, "ann@x");
    assert_eq!(c.author.timestamp, 2000);
    assert_eq!(c.author.tz_offset_secs, 3600);
    assert_eq!(c.committer.name, "Cid");
    assert_eq!(c.committer.tz_offset_secs, -9000);
    assert_eq!(c.message, "second\n");
    assert!(!c.is_signed);
    let root = repo.read_commit(&c1).unwrap();
    assert!(root.parents.is_empty());
}

#[test]
fn reads_trees_and_blobs() {
    let fix = two_commits(false);
    let (tree1, blob1) = (fix.tree1, fix.blob1);
    let repo = open(fix.files);
    let t = repo.read_tree(&tree1).unwrap();
    assert_eq!(t.entries.len(), 1);
    assert_eq!(t.entries[0].name, "f");
    assert_eq!(t.entries[0].hash, blob1);
    assert!(!t.entries[0].is_directory());
    assert!(!t.entries[0].is_executable());
    assert!(!t.entries[0].is_symlink());
    assert_eq!(repo.read_blob(&blob1).unwrap(), b"hello\n".to_vec());
}

#[test]
fn raw_objects_are_verified() {
    let fix = two_commits(false);
    let c2 = fix.c2;
    let repo = open(fix.files);
    let o = repo.read_object(&c2).unwrap();
    assert_eq!(o.kind, ObjectKind::Commit);
    assert!(o.verified);
}

#[test]
fn a_loose_file_under_the_wrong_name_is_read_but_not_verified() {
    let (_, mut lf) = object("blob", b"x");
    let wrong = "0123456789abcdef0123456789abcdef01234567";
    lf.dir = wrong[..2].to_string();
    lf.name = wrong[2..].to_string();
    let files = RepoFiles { files: vec![file("HEAD", wrong.as_bytes())], refs_unreadable: false, loose: vec![lf], pack_dir_readable: false, packs: vec![] };
    let repo = open(files);
    let o = repo.read_object(&GitHash::from_hex(wrong).unwrap()).unwrap();
    assert_eq!(o.data, b"x".to_vec());
    assert!(!o.verified);
}

#[test]
fn missing_object_is_object_not_found() {
    let fix = two_commits(false);
    let repo = open(fix.files);
    let h = GitHash::from_hex("0123456789abcdef0123456789abcdef01234567").unwrap();
    assert!(matches!(repo.read_object(&h), Err(GitError::ObjectNotFound(x)) if x == h));
}

#[test]
fn reading_a_blob_as_a_commit_fails() {
    let fix = two_commits(false);
    let blob = fix.blob2;
    let repo = open(fix.files);
    assert!(matches!(repo.read_commit(&blob), Err(GitError::InvalidObject(_))));
    assert!(matches!(repo.read_tree(&blob), Err(GitError::InvalidObject(_))));
    assert!(repo.read_blob(&blob).is_ok());
}

#[test]
fn unreadable_loose_file_is_an_io_error() {
    let (h, mut lf) = object("blob", b"x");
    lf.data = FileData::Unreadable("Permission denied (os error 13)".to_string());
    let files = RepoFiles { files: vec![], refs_unreadable: false, loose: vec![lf], pack_dir_readable: false, packs: vec![] };
    let repo = open(files);
    assert!(matches!(repo.read_object(&h), Err(GitError::Io(_))));
}

#[test]
fn corrupt_zlib_is_invalid_object() {
    let (h, mut lf) = object("blob", b"x");
    lf.data = FileData::Bytes(b"not zlib at all".to_vec());
    let files = RepoFiles { files: vec![], refs_unreadable: false, loose: vec![lf], pack_dir_readable: false, packs: vec![] };
    let repo = open(files);
    assert!(matches!(repo.read_object(&h), Err(GitError::InvalidObject(_))));
}

#[test]
fn walk_commits_yields_newest_first() {
    let fix = two_commits(false);
    let (c1, c2) = (fix.c1, fix.c2);
    let repo = open(fix.files);
    let mut w = repo.walk_commits(c2);
    assert_eq!(w.next().unwrap().unwrap().hash, c2);
    assert_eq!(w.next().unwrap().unwrap().hash, c1);
    assert!(w.next().is_none());
    let chain = repo.commit_chain(c2).unwrap();
    assert_eq!(chain.len(), 2);
}

#[test]
fn walk_stops_after_an_error() {
    let fix = two_commits(false);
    let repo = open(fix.files);
    let missing = GitHash::from_hex("0123456789abcdef0123456789abcdef01234567").unwrap();
    let mut w = repo.walk_commits(missing);
    assert!(w.next().unwrap().is_err());
    assert!(w.next().is_none());
    assert!(repo.commit_chain(missing).is_err());
}

#[test]
fn all_objects_lists_each_loose_object_once() {
    let mut fix = two_commits(false);
    let dup = fix.files.loose[0].clone();
    fix.files.loose.push(dup);
    fix.files.loose.push(LooseFile { dir: "pack".to_string(), name: "pack-1.idx".to_string(), data: FileData::Unreadable("Permission denied (os error 13)".to_string()) });
    let expected = vec![fix.blob1, fix.tree1, fix.c1, fix.blob2, fix.tree2, fix.c2];
    let repo = open(fix.files);
    assert_eq!(repo.all_objects().unwrap(), expected);
}

#[test]
fn list_loose_accepts_uppercase_shards_and_skips_others() {
    let entries = vec![
        LooseFile { dir: "AB".to_string(), name: "CDEF0123456789abcdef0123456789abcdef01".to_string(), data: FileData::Unreadable("Permission denied (os error 13)".to_string()) },
        LooseFile { dir: "info".to_string(), name: "packs".to_string(), data: FileData::Unreadable("Permission denied (os error 13)".to_string()) },
        LooseFile { dir: "ab".to_string(), name: "short".to_string(), data: FileData::Unreadable("Permission denied (os error 13)".to_string()) },
    ];
    let listed = git_forensic::loose::list_loose(&entries);
    assert_eq!(listed.len(), 1);
    assert_eq!(listed[0].to_hex(), "abcdef0123456789abcdef0123456789abcdef01");
}

#[test]
fn flags_a_backdated_commit_in_the_walk() {
    let fix = two_commits(true);
    let c2 = fix.c2;
    let repo = open(fix.files);
    let found = audit_repo(&repo, c2).unwrap();
    assert_eq!(found.len(), 1);
    let GitAnomaly::CommitterBeforeAuthor { commit, author_time, committer_time } = &found[0];
    assert_eq!(*commit, c2);
    assert_eq!((*author_time, *committer_time), (2000, 1500));
}

#[test]
fn clean_history_produces_no_findings() {
    let fix = two_commits(false);
    let c2 = fix.c2;
    let repo = open(fix.files);
    assert!(audit_repo(&repo, c2).unwrap().is_empty());
    assert!(audit_signatures_repo(&repo, c2).unwrap().is_empty());
}

#[test]
fn timeline_of_a_two_commit_history() {
    let fix = two_commits(false);
    let c2 = fix.c2;
    let repo = open(fix.files);
    let tl = attribution_repo(&repo, c2).unwrap();
    let times: Vec<i64> = tl.iter().map(|e| e.timestamp).collect();
    assert_eq!(times, vec![1000, 1000, 2000, 2500]);
    assert_eq!(tl[0].name, "Ann");
    assert_eq!(tl[1].name, "Cid");
}

#[test]
fn audit_repo_fails_when_the_walk_fails() {
    let fix = two_commits(false);
    let repo = open(fix.files);
    let missing = GitHash::from_hex("0123456789abcdef0123456789abcdef01234567").unwrap();
    assert!(matches!(audit_repo(&repo, missing), Err(GitError::ObjectNotFound(_))));
}

#[test]
fn reflog_through_the_repo() {
    let mut fix = two_commits(false);
    let line = format!("{} {} Ann <ann@x> 5 +0000\treset: moving to HEAD~1\n", fix.c2.to_hex(), fix.c1.to_hex());
    fix.files.files.push(file("logs/HEAD", line.as_bytes()));
    let repo = open(fix.files);
    let entries = repo.reflog("HEAD").unwrap();
    assert_eq!(entries.len(), 1);
    let found = git_forensic::audit_reflog(&repo, "HEAD").unwrap();
    assert_eq!(found.len(), 1);
    assert!(repo.reflog("refs/heads/main").unwrap().is_empty());
}

#[test]
fn read_loose_finds_the_file_of_a_name() {
    let fix = two_commits(false);
    let blob1 = fix.blob1;
    let o = git_forensic::loose::read_loose(&fix.files.loose, &blob1).unwrap();
    assert_eq!(o.kind, ObjectKind::Blob);
    assert_eq!(o.data, b"hello\n".to_vec());
    let missing = GitHash::from_hex("0123456789abcdef0123456789abcdef01234567").unwrap();
    assert!(matches!(git_forensic::loose::read_loose(&fix.files.loose, &missing), Err(GitError::ObjectNotFound(_))));
}

#[test]
fn commit_with_a_bad_tree_hash_is_invalid_hash() {
    let (h, lf) = object("commit", b"tree zzzz\nauthor A <a@b> 1 +0000\ncommitter A <a@b> 1 +0000\n\nm\n");
    let files = RepoFiles { files: vec![], refs_unreadable: false, loose: vec![lf], pack_dir_readable: false, packs: vec![] };
    let repo = open(files);
    assert!(matches!(repo.read_commit(&h), Err(GitError::InvalidHash(_))));
}

#[test]
fn commit_without_an_author_is_invalid_object() {
    let tree = GitHash::from_hex("89abcdef0123456789abcdef0123456789abcdef").unwrap();
    let body = format!("tree {}\ncommitter A <a@b> 1 +0000\n\nm\n", tree.to_hex());
    let (h, lf) = object("commit", body.as_bytes());
    let files = RepoFiles { files: vec![], refs_unreadable: false, loose: vec![lf], pack_dir_readable: false, packs: vec![] };
    let repo = open(files);
    assert!(matches!(repo.read_commit(&h), Err(GitError::InvalidObject(_))));
}

#[test]
fn signed_commits_and_crlf_headers_parse() {
    let tree = GitHash::from_hex("89abcdef0123456789abcdef0123456789abcdef").unwrap();
    let body = format!(
        "tree {}\r\nauthor A B <a@b> 7 +0530\r\ncommitter C <c@d> 8\r\ngpgsig -----BEGIN PGP SIGNATURE-----\r\n line\r\n\r\nmsg\r\n",
        tree.to_hex()
    );
    let (h, lf) = object("commit", body.as_bytes());
    let files = RepoFiles { files: vec![], refs_unreadable: false, loose: vec![lf], pack_dir_readable: false, packs: vec![] };
    let repo = open(files);
    let c = repo.read_commit(&h).unwrap();
    assert!(c.is_signed);
    assert_eq!(c.author.name, "A B");
    assert_eq!(c.author.tz_offset_secs, 19800);
    assert_eq!(c.committer.tz_offset_secs, 0);
    assert_eq!(c.committer.timestamp, 8);
    assert_eq!(c.message, "msg\r\n");
}

#[test]
fn tree_modes_classify_entries() {
    let a = GitHash::from_hex("1111111111111111111111111111111111111111").unwrap();
    let body = tree_body(&[("40000", "dir", a), ("100755", "run.sh", a), ("120000", "link", a)]);
    let (h, lf) = object("tree", &body);
    let files = RepoFiles { files: vec![], refs_unreadable: false, loose: vec![lf], pack_dir_readable: false, packs: vec![] };
    let repo = open(files);
    let t = repo.read_tree(&h).unwrap();
    assert_eq!(t.entries.len(), 3);
    assert!(t.entries[0].is_directory());
    assert_eq!(t.entries[0].mode, 0o40000);
    assert!(t.entries[1].is_executable());
    assert!(t.entries[2].is_symlink());
}

#[test]
fn truncated_tree_is_invalid_object() {
    let (h, lf) = object("tree", b"100644 f\0short");
    let files = RepoFiles { files: vec![], refs_unreadable: false, loose: vec![lf], pack_dir_readable: false, packs: vec![] };
    let repo = open(files);
    assert!(matches!(repo.read_tree(&h), Err(GitError::InvalidObject(_))));
}

#[test]
fn loose_header_size_must_match() {
    let mut raw = b"blob 5\0abc".to_vec();
    let digest = Sha1::digest(&raw);
    let h = GitHash::from_bytes(&digest[..]).unwrap();
    let mut enc = ZlibEncoder::new(Vec::new(), Compression::default());
    enc.write_all(&raw).unwrap();
    raw = enc.finish().unwrap();
    let hex = h.to_hex();
    let lf = LooseFile { dir: hex[..2].to_string(), name: hex[2..].to_string(), data: FileData::Bytes(raw) };
    let files = RepoFiles { files: vec![], refs_unreadable: false, loose: vec![lf], pack_dir_readable: false, packs: vec![] };
    let repo = open(files);
    assert!(matches!(repo.read_object(&h), Err(GitError::InvalidObject(_))));
}

#[test]
fn all_refs_includes_head_target_and_branch() {
    let fix = two_commits(false);
    let repo = open(fix.files);
    let head = repo.head().unwrap();
    let refs = repo.all_refs();
    let main = refs.iter().find(|(name, _)| name == "refs/heads/main").expect("refs/heads/main present");
    assert_eq!(main.1, head);
}

fn invalid_object_text<T: std::fmt::Debug>(r: Result<T, GitError>) -> String {
    match r {
        Err(GitError::InvalidObject(m)) => m,
        other => panic!("expected InvalidObject, got {other:?}"),
    }
}

#[test]
fn open_non_repo_names_the_directory() {
    assert_eq!(invalid_object_text(GitRepo::open("/tmp/nothing", None, None).map(|_| ())), "not a git repository: /tmp/nothing");
}

#[test]
fn reading_a_commit_as_a_tree_names_both_kinds() {
    let fix = two_commits(false);
    let c2 = fix.c2;
    let repo = open(fix.files);
    assert_eq!(
        invalid_object_text(repo.read_tree(&c2)),
        format!("{} is a Commit, not a tree", c2.to_hex())
    );
}

#[test]
fn bad_signature_is_quoted() {
    let tree = GitHash::from_hex("4b825dc642cb6eb9a060e54bf8d69288fbee4904").unwrap();
    let body = format!("tree {}\nauthor nobody\ncommitter A <a@x> 1 +0000\n\nm\n", tree.to_hex());
    let r = git_forensic::CommitObject::parse(tree, body.as_bytes());
    assert_eq!(invalid_object_text(r), "invalid signature: \"nobody\"");
}

#[test]
fn commit_with_bad_tree_hash_reports_the_hash_text() {
    let tree = GitHash::from_hex("4b825dc642cb6eb9a060e54bf8d69288fbee4904").unwrap();
    let r = git_forensic::CommitObject::parse(tree, b"tree abc\n\n");
    match r {
        Err(GitError::InvalidHash(m)) => assert_eq!(m, "expected 40 hex chars, got 3: \"abc\""),
        other => panic!("unexpected {other:?}"),
    }
}

#[test]
fn commit_not_utf8_reports_std_error() {
    let tree = GitHash::from_hex("4b825dc642cb6eb9a060e54bf8d69288fbee4904").unwrap();
    let r = git_forensic::CommitObject::parse(tree, &[0x74, 0xff, 0x0a]);
    let want = format!("commit not valid UTF-8: {}", std::str::from_utf8(&[0x74, 0xff, 0x0a]).unwrap_err());
    assert_eq!(invalid_object_text(r), want);
}

#[test]
fn tree_with_bad_mode_quotes_it() {
    let h = GitHash::from_hex("4b825dc642cb6eb9a060e54bf8d69288fbee4904").unwrap();
    let mut body = b"9z9 name\0".to_vec();
    body.extend_from_slice(&[0u8; 20]);
    let r = git_forensic::TreeObject::parse(h, &body);
    assert_eq!(invalid_object_text(r), "invalid mode: \"9z9\"");
}

fn deflate(bytes: &[u8]) -> Vec<u8> {
    let mut enc = ZlibEncoder::new(Vec::new(), Compression::default());
    enc.write_all(bytes).unwrap();
    enc.finish().unwrap()
}

fn loose_error(raw: &[u8]) -> String {
    let h = GitHash::from_hex("4b825dc642cb6eb9a060e54bf8d69288fbee4904").unwrap();
    invalid_object_text(git_forensic::loose::decompress_and_parse(&h, &deflate(raw)))
}

#[test]
fn loose_header_errors_say_what_is_wrong() {
    assert_eq!(loose_error(b"blob x\0"), "invalid size in header: \"x\"");
    assert_eq!(loose_error(b"blob 5\0ab"), "declared size 5 but data is 2 bytes");
    assert_eq!(loose_error(b"blub 2\0ab"), "unknown object kind: \"blub\"");
    assert_eq!(loose_error(b"blob2ab"), "missing NUL in object header");
    assert_eq!(loose_error(b"blob\0"), "object header missing space");
}

#[test]
fn loose_zlib_error_carries_the_decoder_text() {
    let h = GitHash::from_hex("4b825dc642cb6eb9a060e54bf8d69288fbee4904").unwrap();
    let m = invalid_object_text(git_forensic::loose::decompress_and_parse(&h, b"not zlib"));
    assert!(m.starts_with("zlib decompression failed: "), "{m}");
    assert!(m.len() > "zlib decompression failed: ".len());
}

#[test]
fn unknown_kind_bytes_are_shown_lossily() {
    let r = ObjectKind::from_bytes(&[0x62, 0xff]);
    assert_eq!(invalid_object_text(r), "unknown object kind: \"b\u{fffd}\"");
}

#[test]
fn ref_errors_name_the_ref() {
    let files = RepoFiles {
        files: vec![file("HEAD", b"ref: refs/heads/main\n"), file("refs/heads/main", b"garbage\n")],
        refs_unreadable: false,
        loose: vec![],
        pack_dir_readable: false,
        packs: vec![],
    };
    let repo = open(files);
    match repo.head() {
        Err(GitError::RefNotFound(m)) => assert_eq!(m, "refs/heads/main: invalid hash \"garbage\""),
        other => panic!("unexpected {other:?}"),
    }
    match repo.resolve_ref("refs/heads/nope") {
        Err(GitError::RefNotFound(m)) => assert_eq!(m, "refs/heads/nope"),
        other => panic!("unexpected {other:?}"),
    }
}

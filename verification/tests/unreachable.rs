use std::io::Write;

use flate2::write::ZlibEncoder;
use flate2::Compression;
use git_forensic::{audit_unreachable, Category, FileData, GitHash, GitRepo, LooseFile, RepoFile, RepoFiles, Severity, UnreachableObject};
use sha1::{Digest, Sha1};

fn object(kind: &str, body: &[u8]) -> (GitHash, LooseFile) {
    let mut raw = format!("{kind} {}\0", body.len()).into_bytes();
    raw.extend_from_slice(body);
    let digest = Sha1::digest(&raw);
    let hash = GitHash::from_bytes(&digest[..]).unwrap();
    let mut enc = ZlibEncoder::new(Vec::new(), Compression::default());
    enc.write_all(&raw).unwrap();
    let z = enc.finish().unwrap();
    let hex = hash.to_hex();
    (hash, LooseFile { dir: hex[..2].to_string(), name: hex[2..].to_string(), data: FileData::Bytes(z) })
}

fn tree_of(name: &str, hash: GitHash) -> Vec<u8> {
    let mut out = format!("100644 {name}\0").into_bytes();
    out.extend_from_slice(hash.as_bytes());
    out
}

fn commit_of(tree: GitHash, parents: &[GitHash], msg: &str) -> Vec<u8> {
    let mut s = format!("tree {}\n", tree.to_hex());
    for p in parents {
        s.push_str(&format!("parent {}\n", p.to_hex()));
    }
    s.push_str("author A <a@b.x> 10 +0000\ncommitter A <a@b.x> 10 +0000\n\n");
    s.push_str(msg);
    s.into_bytes()
}

fn file(path: &str, data: &[u8]) -> RepoFile {
    RepoFile { path: path.to_string(), data: FileData::Bytes(data.to_vec()) }
}

#[test]
fn note_and_grading_depend_on_kind() {
    let commit = UnreachableObject {
        object: GitHash::from_hex("0123456789abcdef0123456789abcdef01234567").unwrap(),
        kind: "commit".into(),
    };
    let blob = UnreachableObject {
        object: GitHash::from_hex("89abcdef0123456789abcdef0123456789abcdef").unwrap(),
        kind: "blob".into(),
    };
    assert_eq!(commit.severity(), Some(Severity::Medium));
    assert_eq!(blob.severity(), Some(Severity::Low));
    assert_eq!(commit.code(), "GIT-UNREACHABLE-OBJECT");
    assert_eq!(commit.category(), Category::Residue);
    assert!(commit.note().contains("commit"));
    assert_eq!(
        blob.note(),
        "blob object reachable from no ref; consistent with deleted or rewritten history (the object remains resurrectable from the store until gc)"
    );
    let ev = blob.evidence();
    assert_eq!(ev[0].field, "object");
    assert_eq!(ev[0].value, "89abcdef0123456789abcdef0123456789abcdef");
    assert_eq!(ev[1].value, "blob");
}

#[test]
fn audit_unreachable_errs_when_ref_bootstrap_fails() {
    let files = RepoFiles {
        files: vec![file("HEAD", b"ref: refs/heads/main\n")],
        refs_unreadable: true,
        loose: vec![],
        pack_dir_readable: true,
        packs: vec![],
    };
    let repo = GitRepo::open("repo", Some(files), None).unwrap();
    assert!(audit_unreachable(&repo).is_err());
}

#[test]
fn flags_an_orphaned_commit_and_nothing_reachable() {
    let (blob, lb) = object("blob", b"kept\n");
    let (tree, lt) = object("tree", &tree_of("f", blob));
    let (base, lc) = object("commit", &commit_of(tree, &[], "base\n"));
    let (gone_blob, lgb) = object("blob", b"dropped\n");
    let (gone_tree, lgt) = object("tree", &tree_of("f", gone_blob));
    let (gone, lg) = object("commit", &commit_of(gone_tree, &[base], "dropped\n"));
    let files = RepoFiles {
        files: vec![file("HEAD", b"ref: refs/heads/main\n"), file("refs/heads/main", format!("{}\n", base.to_hex()).as_bytes())],
        refs_unreadable: false,
        loose: vec![lb, lt, lc, lgb, lgt, lg],
        pack_dir_readable: true,
        packs: vec![],
    };
    let repo = GitRepo::open("repo", Some(files), None).unwrap();
    let found = audit_unreachable(&repo).unwrap();
    let got: Vec<(GitHash, &str)> = found.iter().map(|u| (u.object, u.kind.as_str())).collect();
    assert_eq!(got, vec![(gone_blob, "blob"), (gone_tree, "tree"), (gone, "commit")]);
    assert_eq!(found[2].severity(), Some(Severity::Medium));
    assert_eq!(found[0].severity(), Some(Severity::Low));
}

#[test]
fn clean_repo_has_no_unreachable_objects() {
    let (blob, lb) = object("blob", b"kept\n");
    let (tree, lt) = object("tree", &tree_of("f", blob));
    let (c, lc) = object("commit", &commit_of(tree, &[], "only\n"));
    let files = RepoFiles {
        files: vec![file("HEAD", format!("{}\n", c.to_hex()).as_bytes())],
        refs_unreadable: false,
        loose: vec![lc, lt, lb],
        pack_dir_readable: true,
        packs: vec![],
    };
    let repo = GitRepo::open("repo", Some(files), None).unwrap();
    assert!(audit_unreachable(&repo).unwrap().is_empty());
    let reached = git_forensic::reachability::reachable_set(&repo).unwrap();
    assert!(reached.get(&blob).is_some());
    assert!(reached.get(&tree).is_some());
    assert!(reached.get(&c).is_some());
}

#[test]
fn an_unreadable_orphan_is_reported_as_unknown() {
    let (h, mut lf) = object("blob", b"x");
    lf.data = FileData::Unreadable("Permission denied (os error 13)".to_string());
    let files = RepoFiles { files: vec![], refs_unreadable: false, loose: vec![lf], pack_dir_readable: true, packs: vec![] };
    let repo = GitRepo::open("repo", Some(files), None).unwrap();
    let found = audit_unreachable(&repo).unwrap();
    assert_eq!(found.len(), 1);
    assert_eq!(found[0].object, h);
    assert_eq!(found[0].kind, "unknown");
}

#[test]
fn a_history_with_a_cycle_of_refs_still_terminates() {
    // Two commits naming each other as parents cannot come from real hashing,
    // but a crafted store may claim it; reachability must still finish.
    let (blob, lb) = object("blob", b"b\n");
    let (tree, lt) = object("tree", &tree_of("f", blob));
    let (c, lc) = object("commit", &commit_of(tree, &[], "c\n"));
    let files = RepoFiles {
        files: vec![file("refs/heads/a", format!("{}\n", c.to_hex()).as_bytes()), file("refs/heads/b", format!("{}\n", c.to_hex()).as_bytes())],
        refs_unreadable: false,
        loose: vec![lb, lt, lc],
        pack_dir_readable: true,
        packs: vec![],
    };
    let repo = GitRepo::open("repo", Some(files), None).unwrap();
    assert!(audit_unreachable(&repo).unwrap().is_empty());
}

use std::io::Write;

use flate2::write::ZlibEncoder;
use flate2::Compression;
use git_forensic::pack::{apply_delta, list_packed};
use git_forensic::{FileData, GitError, GitHash, GitRepo, LooseFile, ObjectKind, PackFile, RepoFiles};
use sha1::{Digest, Sha1};

fn zlib(data: &[u8]) -> Vec<u8> {
    let mut enc = ZlibEncoder::new(Vec::new(), Compression::default());
    enc.write_all(data).unwrap();
    enc.finish().unwrap()
}

fn name_of(kind: &str, body: &[u8]) -> GitHash {
    let mut raw = format!("{kind} {}\0", body.len()).into_bytes();
    raw.extend_from_slice(body);
    GitHash::from_bytes(&Sha1::digest(&raw)[..]).unwrap()
}

fn obj_header(type_id: u8, size: usize) -> Vec<u8> {
    let mut out = Vec::new();
    let mut b = (type_id << 4) | (size & 0x0f) as u8;
    let mut rest = size >> 4;
    while rest > 0 {
        out.push(b | 0x80);
        b = (rest & 0x7f) as u8;
        rest >>= 7;
    }
    out.push(b);
    out
}

fn ofs_bytes(mut ofs: usize) -> Vec<u8> {
    let mut bytes = vec![(ofs & 0x7f) as u8];
    ofs >>= 7;
    while ofs > 0 {
        ofs -= 1;
        bytes.push(0x80 | (ofs & 0x7f) as u8);
        ofs >>= 7;
    }
    bytes.reverse();
    bytes
}

fn varint(mut n: usize) -> Vec<u8> {
    let mut out = Vec::new();
    loop {
        let b = (n & 0x7f) as u8;
        n >>= 7;
        if n == 0 {
            out.push(b);
            return out;
        }
        out.push(b | 0x80);
    }
}

const BASE: &[u8] = b"hello world\n";
const TARGET: &[u8] = b"hello there world\n";

/// A delta from `BASE` to `TARGET`: copy 6, insert "there ", copy 6 from 6.
fn delta() -> Vec<u8> {
    let mut d = varint(BASE.len());
    d.extend(varint(TARGET.len()));
    d.extend([0x90, 6]);
    d.push(6);
    d.extend_from_slice(b"there ");
    d.extend([0x91, 6, 6]);
    d
}

fn idx_v2(entries: &[(GitHash, u32)]) -> Vec<u8> {
    let mut sorted: Vec<(GitHash, u32)> = entries.to_vec();
    sorted.sort_by_key(|e| *e.0.as_bytes());
    let mut out = vec![0xff, 0x74, 0x4f, 0x63, 0, 0, 0, 2];
    for b in 0..256usize {
        let n = sorted.iter().filter(|(h, _)| (h.as_bytes()[0] as usize) <= b).count() as u32;
        out.extend(n.to_be_bytes());
    }
    for (h, _) in &sorted {
        out.extend_from_slice(h.as_bytes());
    }
    for _ in &sorted {
        out.extend([0, 0, 0, 0]);
    }
    for (_, off) in &sorted {
        out.extend(off.to_be_bytes());
    }
    out
}

struct Packed {
    files: RepoFiles,
    base: GitHash,
    ofs_target: GitHash,
    ref_target: GitHash,
}

/// A pack holding `BASE` whole, `TARGET` as an OFS_DELTA on it, and
/// `TARGET + "!"` as a REF_DELTA on `TARGET`'s loose twin.
fn packed() -> Packed {
    let base = name_of("blob", BASE);
    let ofs_target = name_of("blob", TARGET);
    let mut pack = b"PACK\0\0\0\x02\0\0\0\x03".to_vec();
    let base_off = pack.len();
    pack.extend(obj_header(3, BASE.len()));
    pack.extend(zlib(BASE));
    let delta_off = pack.len();
    let d = delta();
    pack.extend(obj_header(6, d.len()));
    pack.extend(ofs_bytes(delta_off - base_off));
    pack.extend(zlib(&d));
    let mut bang = TARGET.to_vec();
    bang.push(b'!');
    let ref_target = name_of("blob", &bang);
    let mut d2 = varint(TARGET.len());
    d2.extend(varint(bang.len()));
    d2.extend([0x90, TARGET.len() as u8]);
    d2.extend([1, b'!']);
    let ref_off = pack.len();
    pack.extend(obj_header(7, d2.len()));
    pack.extend_from_slice(ofs_target.as_bytes());
    pack.extend(zlib(&d2));
    let idx = idx_v2(&[(base, base_off as u32), (ofs_target, delta_off as u32), (ref_target, ref_off as u32)]);
    let files = RepoFiles {
        files: vec![],
        refs_unreadable: false,
        loose: vec![],
        pack_dir_readable: true,
        packs: vec![PackFile { name: "pack-1.idx".to_string(), idx: FileData::Bytes(idx), pack: Some(FileData::Bytes(pack)) }],
    };
    Packed { files, base, ofs_target, ref_target }
}

#[test]
fn applies_a_copy_insert_copy_delta() {
    assert_eq!(apply_delta(BASE, &delta()).unwrap(), TARGET.to_vec());
}

#[test]
fn delta_with_a_wrong_target_size_is_refused() {
    let mut d = delta();
    d[1] = 17;
    assert!(matches!(apply_delta(BASE, &d), Err(GitError::InvalidObject(_))));
}

#[test]
fn delta_copy_past_the_base_is_out_of_bounds() {
    let mut d = varint(BASE.len());
    d.extend(varint(20));
    d.extend([0x90, 20]);
    assert!(matches!(apply_delta(BASE, &d), Err(GitError::OutOfBounds)));
}

#[test]
fn reads_packed_whole_and_ofs_delta_objects() {
    let p = packed();
    let repo = GitRepo::open("repo", Some(p.files), None).unwrap();
    let b = repo.read_object(&p.base).unwrap();
    assert_eq!(b.kind, ObjectKind::Blob);
    assert_eq!(b.data, BASE.to_vec());
    assert!(b.verified);
    let t = repo.read_object(&p.ofs_target).unwrap();
    assert_eq!(t.data, TARGET.to_vec());
    assert!(t.verified);
    assert_eq!(repo.read_blob(&p.ofs_target).unwrap(), TARGET.to_vec());
}

#[test]
fn reads_a_ref_delta_object() {
    let p = packed();
    let repo = GitRepo::open("repo", Some(p.files), None).unwrap();
    let r = repo.read_object(&p.ref_target).unwrap();
    let mut want = TARGET.to_vec();
    want.push(b'!');
    assert_eq!(r.data, want);
    assert!(r.verified);
}

#[test]
fn ref_delta_base_may_be_loose() {
    let base = name_of("blob", BASE);
    let mut raw = format!("blob {}\0", BASE.len()).into_bytes();
    raw.extend_from_slice(BASE);
    let hex = base.to_hex();
    let loose = LooseFile { dir: hex[..2].to_string(), name: hex[2..].to_string(), data: FileData::Bytes(zlib(&raw)) };
    let target = name_of("blob", TARGET);
    let d = delta();
    let mut pack = b"PACK\0\0\0\x02\0\0\0\x01".to_vec();
    let off = pack.len();
    pack.extend(obj_header(7, d.len()));
    pack.extend_from_slice(base.as_bytes());
    pack.extend(zlib(&d));
    let idx = idx_v2(&[(target, off as u32)]);
    let files = RepoFiles {
        files: vec![],
        refs_unreadable: false,
        loose: vec![loose],
        pack_dir_readable: true,
        packs: vec![PackFile { name: "p.idx".to_string(), idx: FileData::Bytes(idx), pack: Some(FileData::Bytes(pack)) }],
    };
    let repo = GitRepo::open("repo", Some(files), None).unwrap();
    assert_eq!(repo.read_object(&target).unwrap().data, TARGET.to_vec());
}

#[test]
fn a_self_based_delta_stops_at_the_depth_guard() {
    let name = name_of("blob", b"loop");
    let d = delta();
    let mut pack = b"PACK\0\0\0\x02\0\0\0\x01".to_vec();
    let off = pack.len();
    pack.extend(obj_header(7, d.len()));
    pack.extend_from_slice(name.as_bytes());
    pack.extend(zlib(&d));
    let idx = idx_v2(&[(name, off as u32)]);
    let files = RepoFiles {
        files: vec![],
        refs_unreadable: false,
        loose: vec![],
        pack_dir_readable: true,
        packs: vec![PackFile { name: "p.idx".to_string(), idx: FileData::Bytes(idx), pack: Some(FileData::Bytes(pack)) }],
    };
    let repo = GitRepo::open("repo", Some(files), None).unwrap();
    assert!(matches!(repo.read_object(&name), Err(GitError::InvalidObject(_))));
}

#[test]
fn missing_object_in_packed_repo_still_errors() {
    let p = packed();
    let repo = GitRepo::open("repo", Some(p.files), None).unwrap();
    let h = GitHash::from_hex("0000000000000000000000000000000000000001").unwrap();
    assert!(matches!(repo.read_object(&h), Err(GitError::ObjectNotFound(x)) if x == h));
    assert!(repo.read_packed(&h).unwrap().is_none());
}

#[test]
fn packed_object_reports_packfile_not_a_misleading_not_found() {
    let mut p = packed();
    p.files.packs[0].idx = FileData::Bytes(vec![0u8; 1100]);
    let repo = GitRepo::open("repo", Some(p.files), None).unwrap();
    assert!(matches!(repo.read_object(&p.base), Err(GitError::PackfileUnsupported(h)) if h == p.base));
}

#[test]
fn missing_pack_file_is_an_io_error() {
    let mut p = packed();
    p.files.packs[0].pack = None;
    let repo = GitRepo::open("repo", Some(p.files), None).unwrap();
    assert!(matches!(repo.read_object(&p.base), Err(GitError::Io(_))));
}

#[test]
fn unlistable_pack_directory_hides_packs() {
    let mut p = packed();
    p.files.pack_dir_readable = false;
    let repo = GitRepo::open("repo", Some(p.files), None).unwrap();
    assert!(matches!(repo.read_object(&p.base), Err(GitError::ObjectNotFound(_))));
    assert!(repo.all_objects().unwrap().is_empty());
}

#[test]
fn list_packed_lists_index_names_in_order() {
    let p = packed();
    let mut want = vec![p.base, p.ofs_target, p.ref_target];
    want.sort_by_key(|h| *h.as_bytes());
    assert_eq!(list_packed(&p.files.packs, true).unwrap(), want);
    assert!(list_packed(&p.files.packs, false).unwrap().is_empty());
    let bad = vec![PackFile { name: "x.idx".to_string(), idx: FileData::Bytes(vec![1, 2, 3]), pack: None }];
    assert!(matches!(list_packed(&bad, true), Err(GitError::InvalidObject(_))));
}

#[test]
fn all_objects_merges_loose_and_packed_once() {
    let mut p = packed();
    let mut raw = format!("blob {}\0", BASE.len()).into_bytes();
    raw.extend_from_slice(BASE);
    let hex = p.base.to_hex();
    p.files.loose.push(LooseFile { dir: hex[..2].to_string(), name: hex[2..].to_string(), data: FileData::Bytes(zlib(&raw)) });
    let base = p.base;
    let repo = GitRepo::open("repo", Some(p.files), None).unwrap();
    let all = repo.all_objects().unwrap();
    assert_eq!(all.len(), 3);
    assert_eq!(all[0], base);
}

#[test]
fn packs_are_searched_in_name_order() {
    let p = packed();
    let first = p.files.packs[0].clone();
    let mut shadow = first.clone();
    shadow.name = "a.idx".to_string();
    shadow.pack = Some(FileData::Unreadable("Permission denied (os error 13)".to_string()));
    let files = RepoFiles { packs: vec![first, shadow], ..p.files };
    let repo = GitRepo::open("repo", Some(files), None).unwrap();
    // "a.idx" sorts before "pack-1.idx", and its pack cannot be read.
    assert!(matches!(repo.read_object(&p.base), Err(GitError::Io(_))));
}

#[test]
fn delta_with_a_wrong_source_size_is_refused() {
    assert!(matches!(apply_delta(b"ab", &[0x05, 0x01, 0x01, b'a']), Err(GitError::InvalidObject(_))));
    assert_eq!(apply_delta(b"ab", &[0x02, 0x01, 0x01, b'a']).unwrap(), b"a".to_vec());
}

fn tree_of(entries: &[(&str, GitHash)]) -> Vec<u8> {
    let mut out = Vec::new();
    for (name, h) in entries {
        out.extend_from_slice(format!("100644 {name}\0").as_bytes());
        out.extend_from_slice(h.as_bytes());
    }
    out
}

/// Two commits: `A` adds `f` = "1", `B` adds `g` = "2".
fn history() -> Vec<(&'static str, u8, Vec<u8>)> {
    let f = b"1".to_vec();
    let g = b"2".to_vec();
    let hf = name_of("blob", &f);
    let hg = name_of("blob", &g);
    let t1 = tree_of(&[("f", hf)]);
    let ht1 = name_of("tree", &t1);
    let c1 = format!("tree {}\nauthor A <a@b.x> 1 +0000\ncommitter A <a@b.x> 1 +0000\n\nA\n", ht1.to_hex()).into_bytes();
    let hc1 = name_of("commit", &c1);
    let t2 = tree_of(&[("f", hf), ("g", hg)]);
    let ht2 = name_of("tree", &t2);
    let c2 = format!(
        "tree {}\nparent {}\nauthor A <a@b.x> 2 +0000\ncommitter A <a@b.x> 2 +0000\n\nB\n",
        ht2.to_hex(),
        hc1.to_hex()
    )
    .into_bytes();
    vec![("blob", 3, f), ("blob", 3, g), ("tree", 2, t1), ("commit", 1, c1), ("tree", 2, t2), ("commit", 1, c2)]
}

fn loose_image() -> RepoFiles {
    let loose = history()
        .into_iter()
        .map(|(kind, _, body)| {
            let h = name_of(kind, &body);
            let mut raw = format!("{kind} {}\0", body.len()).into_bytes();
            raw.extend_from_slice(&body);
            let hex = h.to_hex();
            LooseFile { dir: hex[..2].to_string(), name: hex[2..].to_string(), data: FileData::Bytes(zlib(&raw)) }
        })
        .collect();
    RepoFiles { files: vec![], refs_unreadable: false, loose, pack_dir_readable: true, packs: vec![] }
}

fn packed_image() -> RepoFiles {
    let mut pack = b"PACK\0\0\0\x02\0\0\0\x06".to_vec();
    let mut entries = Vec::new();
    for (kind, type_id, body) in history() {
        entries.push((name_of(kind, &body), pack.len() as u32));
        pack.extend(obj_header(type_id, body.len()));
        pack.extend(zlib(&body));
    }
    let idx = idx_v2(&entries);
    RepoFiles {
        files: vec![],
        refs_unreadable: false,
        loose: vec![],
        pack_dir_readable: true,
        packs: vec![PackFile { name: "pack-h.idx".to_string(), idx: FileData::Bytes(idx), pack: Some(FileData::Bytes(pack)) }],
    }
}

fn history_names() -> std::collections::BTreeSet<String> {
    history().into_iter().map(|(kind, _, body)| name_of(kind, &body).to_hex()).collect()
}

#[test]
fn all_objects_matches_git_when_loose() {
    let repo = GitRepo::open("repo", Some(loose_image()), None).unwrap();
    let ours: std::collections::BTreeSet<String> = repo.all_objects().unwrap().iter().map(GitHash::to_hex).collect();
    assert_eq!(ours, history_names());
}

#[test]
fn all_objects_matches_git_when_packed() {
    let repo = GitRepo::open("repo", Some(packed_image()), None).unwrap();
    let ours: std::collections::BTreeSet<String> = repo.all_objects().unwrap().iter().map(GitHash::to_hex).collect();
    assert_eq!(ours, history_names());
    for h in repo.all_objects().unwrap() {
        assert!(repo.read_object(&h).unwrap().verified);
    }
}

#[test]
fn list_loose_and_list_packed_split_correctly() {
    let loose = loose_image();
    assert!(!git_forensic::loose::list_loose(&loose.loose).is_empty());
    assert!(list_packed(&loose.packs, loose.pack_dir_readable).unwrap().is_empty());
    let packed = packed_image();
    assert!(git_forensic::loose::list_loose(&packed.loose).is_empty());
    assert!(!list_packed(&packed.packs, packed.pack_dir_readable).unwrap().is_empty());
}

#[test]
fn delta_that_misses_its_target_size_says_both_sizes() {
    // source 2, target 3, then one literal byte: produces 1 byte.
    match apply_delta(b"ab", &[0x02, 0x03, 0x01, b'a']) {
        Err(GitError::InvalidObject(m)) => assert_eq!(m, "delta produced 1 bytes, header said 3"),
        other => panic!("unexpected {other:?}"),
    }
    match apply_delta(b"ab", &[0x02, 0x01, 0x00]) {
        Err(GitError::InvalidObject(m)) => assert_eq!(m, "delta opcode 0 is reserved"),
        other => panic!("unexpected {other:?}"),
    }
}

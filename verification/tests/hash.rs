use git_forensic::GitHash;

#[test]
fn hash_from_hex_roundtrip() {
    let hex = "da39a3ee5e6b4b0d3255bfef95601890afd80709";
    let h = GitHash::from_hex(hex).expect("valid hex");
    assert_eq!(h.to_hex(), hex);
}

#[test]
fn hash_from_hex_bad_length_returns_err() {
    assert!(GitHash::from_hex("deadbeef").is_err());
    assert!(matches!(GitHash::from_hex("deadbeef"), Err(git_forensic::GitError::InvalidHash(_))));
}

#[test]
fn hash_from_hex_bad_chars_returns_err() {
    assert!(GitHash::from_hex("zzzzzzzzzzzzzzzzzzzzzzzzzzzzzzzzzzzzzzzz").is_err());
}

#[test]
fn uppercase_hex_reads_and_prints_lowercase() {
    let h = GitHash::from_hex("DA39A3EE5E6B4B0D3255BFEF95601890AFD80709").unwrap();
    assert_eq!(h.to_hex(), "da39a3ee5e6b4b0d3255bfef95601890afd80709");
}

#[test]
fn object_path_splits_after_two_digits() {
    let h = GitHash::from_hex("da39a3ee5e6b4b0d3255bfef95601890afd80709").unwrap();
    let (dir, file) = h.object_path();
    assert_eq!(dir, "da");
    assert_eq!(file, "39a3ee5e6b4b0d3255bfef95601890afd80709");
}

#[test]
fn from_bytes_needs_exactly_twenty() {
    assert!(GitHash::from_bytes(&[0u8; 19]).is_err());
    let h = GitHash::from_bytes(&[0xabu8; 20]).unwrap();
    assert_eq!(h.as_bytes(), &[0xabu8; 20]);
    assert_eq!(h.to_hex(), "abababababababababababababababababababab");
}

fn invalid_hash_text(r: Result<GitHash, git_forensic::GitError>) -> String {
    match r {
        Err(git_forensic::GitError::InvalidHash(m)) => m,
        other => panic!("expected InvalidHash, got {other:?}"),
    }
}

#[test]
fn hash_from_hex_wrong_length_says_length_and_text() {
    assert_eq!(invalid_hash_text(GitHash::from_hex("deadbeef")), "expected 40 hex chars, got 8: \"deadbeef\"");
}

#[test]
fn hash_from_hex_bad_character_says_where() {
    let text = "0123456789abcdef0123456789abcdef0123456z";
    assert_eq!(
        invalid_hash_text(GitHash::from_hex(text)),
        format!("Invalid character 'z' at position 39: {text:?}")
    );
}

#[test]
fn hash_from_bytes_wrong_length_says_length() {
    assert_eq!(invalid_hash_text(GitHash::from_bytes(&[1, 2, 3])), "expected 20 bytes, got 3");
}

use git_forensic::reflog::{parse_line, parse_reflog, read_reflog, ReflogEntry};
use git_forensic::{FileData, RepoFile};

#[test]
fn parses_a_basic_line() {
    let e = parse_line(
        "0000000000000000000000000000000000000000 \
         3abc579ce97f2484371fbe6e52d1fa43699479b5 A <a@b.x> 100 +0000\tcommit: x",
    )
    .unwrap();
    assert_eq!(e.name, "A");
    assert_eq!(e.email, "a@b.x");
    assert_eq!(e.timestamp, 100);
    assert_eq!(e.message, "commit: x");
}

#[test]
fn rejects_a_line_without_a_tab() {
    assert!(parse_line("no tab here").is_none());
}

#[test]
fn rejects_a_line_without_an_email() {
    assert!(parse_line("aaa bbb name 100 +0000\tmsg").is_none());
}

#[test]
fn rejects_a_short_hash() {
    assert!(parse_line("dead beef A <a@b.x> 100 +0000\tmsg").is_none());
}

#[test]
fn rejects_a_non_numeric_timestamp() {
    assert!(parse_line(
        "0000000000000000000000000000000000000000 \
         3abc579ce97f2484371fbe6e52d1fa43699479b5 A <a@b.x> nope +0000\tmsg"
    )
    .is_none());
}

#[test]
fn defaults_missing_tz_to_utc() {
    let e = parse_line(
        "0000000000000000000000000000000000000000 \
         3abc579ce97f2484371fbe6e52d1fa43699479b5 A <a@b.x> 100\tmsg",
    )
    .unwrap();
    assert_eq!(e.tz_offset, "+0000");
}

#[test]
fn parse_reflog_extracts_fields() {
    let line = b"0000000000000000000000000000000000000000 \
3abc579ce97f2484371fbe6e52d1fa43699479b5 A <a@b.x> 1781281480 +0800\tcommit (initial): first\n";
    let entries = parse_reflog(line);
    assert_eq!(entries.len(), 1);
    let e: &ReflogEntry = &entries[0];
    assert_eq!(e.old.to_hex(), "0000000000000000000000000000000000000000");
    assert_eq!(e.new.to_hex(), "3abc579ce97f2484371fbe6e52d1fa43699479b5");
    assert_eq!(e.name, "A");
    assert_eq!(e.email, "a@b.x");
    assert_eq!(e.timestamp, 1_781_281_480);
    assert_eq!(e.tz_offset, "+0800");
    assert_eq!(e.message, "commit (initial): first");
}

#[test]
fn parse_reflog_handles_name_with_spaces() {
    let line = b"0000000000000000000000000000000000000000 \
3abc579ce97f2484371fbe6e52d1fa43699479b5 Ada Lovelace <ada@x> 100 -0500\tcommit: x\n";
    let entries = parse_reflog(line);
    assert_eq!(entries.len(), 1);
    assert_eq!(entries[0].name, "Ada Lovelace");
    assert_eq!(entries[0].email, "ada@x");
    assert_eq!(entries[0].tz_offset, "-0500");
}

#[test]
fn parse_reflog_skips_malformed_lines() {
    let bytes = b"garbage with no tab\n\
short\tnope\n\
0000000000000000000000000000000000000000 \
3abc579ce97f2484371fbe6e52d1fa43699479b5 A <a@b.x> 100 +0000\tok\n";
    let entries = parse_reflog(bytes);
    assert_eq!(entries.len(), 1);
    assert_eq!(entries[0].message, "ok");
}

#[test]
fn reflog_missing_returns_empty() {
    let files = vec![RepoFile { path: "HEAD".to_string(), data: FileData::Bytes(b"ref: refs/heads/main\n".to_vec()) }];
    let entries = read_reflog(&files, "refs/heads/does-not-exist").unwrap();
    assert!(entries.is_empty());
}

#[test]
fn reflog_reads_three_movements_in_order() {
    let log = b"0000000000000000000000000000000000000000 1111111111111111111111111111111111111111 A <a@b.x> 1 +0000\tcommit (initial): first\n\
1111111111111111111111111111111111111111 2222222222222222222222222222222222222222 A <a@b.x> 2 +0000\tcommit: second\n\
2222222222222222222222222222222222222222 1111111111111111111111111111111111111111 A <a@b.x> 3 +0000\treset: moving to HEAD~1\n";
    let files = vec![RepoFile { path: "logs/HEAD".to_string(), data: FileData::Bytes(log.to_vec()) }];
    let entries = read_reflog(&files, "HEAD").unwrap();
    assert_eq!(entries.len(), 3);
    assert!(entries[0].message.starts_with("commit (initial):"));
    assert!(entries[1].message.starts_with("commit:"));
    assert!(entries[2].message.starts_with("reset:"));
}

#[test]
fn unreadable_reflog_is_an_io_error() {
    let files = vec![RepoFile { path: "logs/HEAD".to_string(), data: FileData::Unreadable("Permission denied (os error 13)".to_string()) }];
    assert!(matches!(read_reflog(&files, "HEAD"), Err(git_forensic::GitError::Io(_))));
}

#[test]
fn crlf_reflog_lines_keep_clean_messages() {
    let log = b"0000000000000000000000000000000000000000 1111111111111111111111111111111111111111 A <a@b.x> 1 +0000\tcommit: one\r\n";
    let entries = parse_reflog(log);
    assert_eq!(entries.len(), 1);
    assert_eq!(entries[0].message, "commit: one");
}

#[test]
fn invalid_utf8_in_a_reflog_is_replaced_not_fatal() {
    let mut log = b"0000000000000000000000000000000000000000 1111111111111111111111111111111111111111 A".to_vec();
    log.push(0xff);
    log.extend_from_slice(b" <a@b.x> 1 +0000\tmsg\n");
    let entries = parse_reflog(&log);
    assert_eq!(entries.len(), 1);
    assert_eq!(entries[0].name, "A\u{fffd}");
}

#[test]
fn reflogs_joined_at_a_line_boundary_parse_as_both() {
    let a = b"0000000000000000000000000000000000000000 1111111111111111111111111111111111111111 A <a@b.x> 1 +0000\tcommit: one\n".to_vec();
    let b = b"bad line\n1111111111111111111111111111111111111111 2222222222222222222222222222222222222222 B <b@x> 2 -0100\treset: x\n".to_vec();
    let mut ab = a.clone();
    ab.extend_from_slice(&b);
    let joined = parse_reflog(&ab);
    let mut parts = parse_reflog(&a);
    parts.extend(parse_reflog(&b));
    assert_eq!(joined, parts);
    assert_eq!(joined.len(), 2);
}

#[test]
fn reflog_entries_never_outnumber_lines() {
    let good = "0000000000000000000000000000000000000000 1111111111111111111111111111111111111111 A <a@x> 1 +0000\tcommit: one\n";
    let mut bytes = format!("{good}{good}not an entry\n").into_bytes();
    bytes.push(0xff);
    bytes.extend_from_slice(good.as_bytes());
    let lines = String::from_utf8_lossy(&bytes).lines().count();
    let entries = parse_reflog(&bytes);
    assert_eq!(lines, 4);
    assert_eq!(entries.len(), 2);
    assert!(entries.len() <= lines);
}

use bound::{parse_commit, CommitParseError};

fn lines(text: &[&str]) -> Vec<String> {
    text.iter().map(|s| s.to_string()).collect()
}

#[test]
fn parses_blocks_into_commits() {
    let input = lines(&[
        "COMMIT",
        "abc123",
        "1700000000",
        "Alice",
        "alice@example.com",
        "",
        "10\t2\tsrc/a.go",
        "-\t-\tlogo.png",
        "COMMIT",
        "def456",
        "1700000100",
        "Bob",
        "bob@example.com",
        "",
        "0\t5\tREADME.md",
    ]);
    let mut it = parse_commit(input);
    let first = it.next().unwrap().unwrap();
    assert_eq!(first.id, "abc123");
    assert_eq!(first.timestamp, 1700000000);
    assert_eq!(first.author.name, "Alice");
    assert_eq!(first.author.email, "alice@example.com");
    assert_eq!(first.file_changes.len(), 2);
    assert_eq!(first.file_changes[0].path, "src/a.go");
    assert_eq!(first.file_changes[0].insertions, 10);
    assert_eq!(first.file_changes[0].deletions, 2);
    let second = it.next().unwrap().unwrap();
    assert_eq!(second.id, "def456");
    assert_eq!(second.file_changes.len(), 1);
    assert_eq!(second.file_changes[0].deletions, 5);
    assert!(it.next().is_none());
}

#[test]
fn binary_counts_default_to_zero() {
    let mut it = parse_commit(lines(&["COMMIT", "a", "1", "n", "e", "", "-\t-\tlogo.png", "+3\tx\tb.txt"]));
    let c = it.next().unwrap().unwrap();
    assert_eq!(c.file_changes[0].insertions, 0);
    assert_eq!(c.file_changes[0].deletions, 0);
    assert_eq!(c.file_changes[1].insertions, 3);
    assert_eq!(c.file_changes[1].deletions, 0);
}

#[test]
fn header_only_block_at_end_of_input() {
    let mut it = parse_commit(lines(&["COMMIT", "a", "-42", "n", "e"]));
    let c = it.next().unwrap().unwrap();
    assert_eq!(c.timestamp, -42);
    assert!(c.file_changes.is_empty());
    assert!(it.next().is_none());
}

#[test]
fn blank_with_spaces_is_a_separator() {
    let mut it = parse_commit(lines(&["COMMIT", "a", "5", "n", "e", "  ", "1\t1\tf"]));
    let c = it.next().unwrap().unwrap();
    assert_eq!(c.file_changes.len(), 1);
}

#[test]
fn empty_input_has_no_commits() {
    let mut it = parse_commit(Vec::new());
    assert!(it.next().is_none());
}

#[test]
fn missing_marker_is_an_error_and_ends_the_sequence() {
    let mut it = parse_commit(lines(&["NOPE", "a", "1", "n", "e"]));
    assert_eq!(it.next().unwrap().unwrap_err(), CommitParseError::ExpectedCommit { line: 0 });
    assert!(it.next().is_none());
}

#[test]
fn truncated_metadata_is_an_error() {
    let mut it = parse_commit(lines(&["COMMIT", "a", "1", "n"]));
    assert_eq!(it.next().unwrap().unwrap_err(), CommitParseError::IncompleteCommitInfo { line: 0 });
}

#[test]
fn bad_timestamp_is_an_error() {
    let mut it = parse_commit(lines(&["COMMIT", "a", "yesterday", "n", "e"]));
    assert_eq!(it.next().unwrap().unwrap_err(), CommitParseError::InvalidTimestamp { line: 2 });
}

#[test]
fn text_where_the_blank_line_belongs_is_an_error() {
    let mut it = parse_commit(lines(&["COMMIT", "a", "1", "n", "e", "1\t2\tf"]));
    assert_eq!(it.next().unwrap().unwrap_err(), CommitParseError::ExpectedEmptyLine { line: 5 });
}

#[test]
fn change_line_without_three_fields_is_an_error() {
    let mut it = parse_commit(lines(&["COMMIT", "a", "1", "n", "e", "", "1\t2\tf", "1\t2"]));
    assert_eq!(it.next().unwrap().unwrap_err(), CommitParseError::InvalidFileChange { line: 7 });
    assert!(it.next().is_none());
}

#[test]
fn second_block_error_comes_after_first_commit() {
    let mut it = parse_commit(lines(&["COMMIT", "a", "1", "n", "e", "", "COMMIT", "b"]));
    assert!(it.next().unwrap().is_ok());
    assert_eq!(it.next().unwrap().unwrap_err(), CommitParseError::IncompleteCommitInfo { line: 6 });
}

#[test]
fn largest_counts_and_timestamps() {
    let mut it = parse_commit(lines(&[
        "COMMIT",
        "a",
        "-9223372036854775808",
        "n",
        "e",
        "",
        "4294967295\t4294967296\tbig.bin",
    ]));
    let c = it.next().unwrap().unwrap();
    assert_eq!(c.timestamp, i64::MIN);
    assert_eq!(c.file_changes[0].insertions, u32::MAX);
    assert_eq!(c.file_changes[0].deletions, 0);
    let mut it = parse_commit(lines(&["COMMIT", "a", "9223372036854775808", "n", "e"]));
    assert_eq!(it.next().unwrap().unwrap_err(), CommitParseError::InvalidTimestamp { line: 2 });
    let mut it = parse_commit(lines(&["COMMIT", "a", "9223372036854775807", "n", "e"]));
    assert_eq!(it.next().unwrap().unwrap().timestamp, i64::MAX);
}

#[test]
fn metadata_lines_are_taken_as_they_are() {
    let mut it = parse_commit(lines(&["COMMIT", "COMMIT", "0", "COMMIT", "", "", "1\t0\tf"]));
    let c = it.next().unwrap().unwrap();
    assert_eq!(c.id, "COMMIT");
    assert_eq!(c.timestamp, 0);
    assert_eq!(c.author.name, "COMMIT");
    assert_eq!(c.author.email, "");
    assert_eq!(c.file_changes.len(), 1);
}

fn stream_all(input: &[&str]) -> (Vec<Result<bound::CommitInfo, CommitParseError>>, Vec<usize>) {
    let mut s = bound::CommitStream::new();
    let mut out = Vec::new();
    let mut at = Vec::new();
    for (i, l) in input.iter().enumerate() {
        if let Some(r) = s.push_line(l.to_string()) {
            out.push(r);
            at.push(i);
        }
    }
    while let Some(r) = s.finish() {
        out.push(r);
        at.push(input.len());
    }
    assert_eq!(s.lines_read(), input.len());
    (out, at)
}

#[test]
fn stream_gives_each_commit_when_the_next_block_starts() {
    let input = [
        "COMMIT", "a1", "10", "Ann", "ann@x", "", "1\t2\tx.rs", "3\t4\ty.rs",
        "COMMIT", "b2", "20", "Bob", "bob@x", "", "5\t6\tz.rs",
    ];
    let (out, at) = stream_all(&input);
    assert_eq!(at, vec![8, 15]);
    assert_eq!(out.len(), 2);
    let a = out[0].as_ref().unwrap();
    assert_eq!(a.id, "a1");
    assert_eq!(a.file_changes.len(), 2);
    assert_eq!(a.file_changes[1].path, "y.rs");
    let b = out[1].as_ref().unwrap();
    assert_eq!(b.author.name, "Bob");
    assert_eq!(b.file_changes[0].insertions, 5);
}

#[test]
fn stream_agrees_with_the_whole_input_reader() {
    let input = ["COMMIT", "a", "1", "n", "e", "", "1\t1\tf", "COMMIT", "b", "2", "m", "d", "COMMIT", "c"];
    let (out, _) = stream_all(&input);
    let mut it = parse_commit(lines(&input));
    let mut whole = Vec::new();
    while let Some(r) = it.next() {
        whole.push(r);
    }
    assert_eq!(out.len(), whole.len());
    for (x, y) in out.iter().zip(whole.iter()) {
        match (x, y) {
            (Ok(p), Ok(q)) => {
                assert_eq!(p.id, q.id);
                assert_eq!(p.file_changes.len(), q.file_changes.len());
            }
            (Err(p), Err(q)) => assert_eq!(p, q),
            _ => panic!("outcomes differ"),
        }
    }
}

#[test]
fn stream_reports_errors_with_their_line_and_stops() {
    let (out, at) = stream_all(&["COMMIT", "a", "1", "n", "e", "", "1\t1\tf", "COMMIT", "b", "x", "m", "d", "1\t1\tg"]);
    assert_eq!(out.len(), 2);
    assert!(out[0].is_ok());
    assert_eq!(out[1].as_ref().unwrap_err(), &CommitParseError::InvalidTimestamp { line: 9 });
    assert_eq!(at, vec![7, 11]);
    let (out, _) = stream_all(&["COMMIT", "a", "1", "n", "e", "", "1\t1"]);
    assert_eq!(out.len(), 1);
    assert_eq!(out[0].as_ref().unwrap_err(), &CommitParseError::InvalidFileChange { line: 6 });
    let (out, _) = stream_all(&["x"]);
    assert_eq!(out[0].as_ref().unwrap_err(), &CommitParseError::ExpectedCommit { line: 0 });
}

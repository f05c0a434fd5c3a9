use rrecutils::contlines::{join_lines, ContinuationLines};
use rrecutils::text::{decode, split_lines};

fn test_contlines(input: &[u8], expected: Vec<&str>) {
    // split the input into physical lines, and hand them out joined
    let lines = split_lines(&decode(input).unwrap());
    let mut i = ContinuationLines::new(lines);
    let mut next = || i.next().map(|l| l.iter().collect::<String>());
    for e in expected.into_iter() {
        assert_eq!(next(), Some(e.to_owned()));
    }
    assert_eq!(next(), None);
    assert_eq!(next(), None);
}

#[test]
fn no_contlines() {
    test_contlines(b"foo\nbar\n", vec!["foo", "bar"]);
}

#[test]
fn two_joined_lines() {
    test_contlines(b"foo\\\nbar\n", vec!["foobar"]);
}

#[test]
fn three_joined_lines() {
    test_contlines(b"foo\\\nbar\\\nbaz\n", vec!["foobarbaz"]);
}

#[test]
fn mixed_joins() {
    test_contlines(b"foo\nbar\\\nbaz\nquux\n", vec!["foo", "barbaz", "quux"]);
}

#[test]
fn physical_lines_a_b_c_make_one_logical_line() {
    let lines: Vec<Vec<char>> = vec!["a\\", "b\\", "c"]
        .into_iter()
        .map(|l| l.chars().collect())
        .collect();
    let joined = join_lines(lines);
    assert_eq!(joined.len(), 1);
    assert_eq!(joined[0].iter().collect::<String>(), "abc");
}

#[test]
fn pending_marker_at_end_is_dropped() {
    test_contlines(b"foo\\", vec!["foo"]);
    test_contlines(b"foo\\\n", vec!["foo"]);
}

#[test]
fn split_lines_drops_carriage_returns_and_keeps_last_line() {
    let text = decode(b"a\r\nb\n\nc").unwrap();
    let lines: Vec<String> = split_lines(&text)
        .iter()
        .map(|l| l.iter().collect())
        .collect();
    assert_eq!(lines, vec!["a", "b", "", "c"]);
}

#[test]
fn decode_rejects_invalid_utf8() {
    assert!(decode(b"ok \xff").is_none());
    assert_eq!(decode("é:x".as_bytes()), Some(vec!['é', ':', 'x']));
}

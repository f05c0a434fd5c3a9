use rrecutils::{RecError, Recfile, Record};

fn test_parse(input: &[u8], expected: Vec<Vec<(&str, &str)>>) {
    let file = Recfile {
        records: expected
            .iter()
            .map(|v| Record {
                rec_type: None,
                fields: v
                    .iter()
                    .map(|&(k, v)| (k.to_owned(), v.to_owned()))
                    .collect(),
            })
            .collect(),
    };
    assert_eq!(Recfile::parse(input), Ok(file));
}

fn record(rec_type: Option<&str>, fields: &[(&str, &str)]) -> Record {
    Record {
        rec_type: rec_type.map(|t| t.to_owned()),
        fields: fields
            .iter()
            .map(|&(k, v)| (k.to_owned(), v.to_owned()))
            .collect(),
    }
}

#[test]
fn empty_file() {
    test_parse(b"\n", vec![]);
}

#[test]
fn only_comments() {
    test_parse(b"# an empty file\n", vec![]);
}

#[test]
fn one_section() {
    test_parse(b"hello: yes\n", vec![vec![("hello", "yes")]]);
}

#[test]
fn two_sections() {
    test_parse(
        b"hello: yes\n\ngoodbye: no\n",
        vec![vec![("hello", "yes")], vec![("goodbye", "no")]],
    );
}

#[test]
fn continuation_with_space() {
    test_parse(
        b"hello: yes\n+ but also no\n",
        vec![vec![("hello", "yes\nbut also no")]],
    );
}

#[test]
fn continuation_without_space() {
    test_parse(
        b"hello: yes\n+but also no\n",
        vec![vec![("hello", "yes\nbut also no")]],
    );
}

#[test]
fn continuation_with_two_spaces() {
    test_parse(
        b"hello: yes\n+  but also no\n",
        vec![vec![("hello", "yes\n but also no")]],
    );
}

#[test]
fn rec_declaration_types_both_records() {
    let parsed = Recfile::parse(b"%rec: foo\nkey: 1\n\nkey: 2\n").unwrap();
    assert_eq!(
        parsed,
        Recfile {
            records: vec![
                record(Some("foo"), &[("%rec", "foo"), ("key", "1")]),
                record(Some("foo"), &[("key", "2")]),
            ],
        }
    );
}

#[test]
fn rec_declaration_applies_to_later_records_only() {
    let parsed = Recfile::parse(b"a: 1\n%rec: foo\n\nb: 2\n%rec: bar\n\nc: 3\n").unwrap();
    assert_eq!(
        parsed,
        Recfile {
            records: vec![
                record(None, &[("a", "1"), ("%rec", "foo")]),
                record(Some("foo"), &[("b", "2"), ("%rec", "bar")]),
                record(Some("bar"), &[("c", "3")]),
            ],
        }
    );
}

#[test]
fn continuation_without_field_is_bad() {
    assert_eq!(
        Recfile::parse(b"+oops\n"),
        Err(RecError::BadContLine { ln: "+oops".to_owned() })
    );
    assert_eq!(
        Recfile::parse(b"a: 1\n\n  + oops\n"),
        Err(RecError::BadContLine { ln: "+ oops".to_owned() })
    );
}

#[test]
fn line_without_colon_is_invalid() {
    assert_eq!(
        Recfile::parse(b"not a field\n"),
        Err(RecError::InvalidLine { ln: "not a field".to_owned() })
    );
}

#[test]
fn invalid_utf8_is_a_generic_error() {
    assert!(matches!(
        Recfile::parse(b"a: \xff\n"),
        Err(RecError::GenericError { .. })
    ));
}

#[test]
fn hello_goodbye_scenario() {
    let parsed = Recfile::parse(b"hello: yes\n\ngoodbye: no\n").unwrap();
    assert_eq!(parsed.records.len(), 2);
    assert_eq!(parsed.records[0], record(None, &[("hello", "yes")]));
    assert_eq!(parsed.records[1], record(None, &[("goodbye", "no")]));
}

#[test]
fn field_lines_split_at_first_colon_and_trim() {
    test_parse(
        b"   url:   http://x:80 \n\tk:v\n",
        vec![vec![("url", "http://x:80 "), ("\tk", "v")]],
    );
}

#[test]
fn comments_and_repeated_blanks() {
    test_parse(
        b"  # note\na: 1\n\n\n# mid\n\nb: 2\nb: 3\n\n",
        vec![vec![("a", "1")], vec![("b", "2"), ("b", "3")]],
    );
}

#[test]
fn joined_physical_lines_make_one_field() {
    test_parse(b"a: one\\\n two\n", vec![vec![("a", "one two")]]);
}

#[test]
fn record_count_follows_groups() {
    assert_eq!(Recfile::parse(b"a: 1\n\nb: 2\n\n").unwrap().records.len(), 2);
    assert_eq!(Recfile::parse(b"a: 1\n\nb: 2").unwrap().records.len(), 2);
    assert_eq!(Recfile::parse(b"\n\n# c\n\na: 1\n").unwrap().records.len(), 1);
    assert_eq!(Recfile::parse(b"").unwrap().records.len(), 0);
}

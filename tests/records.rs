use rrecutils::{RecError, Recfile, Record};

fn record(rec_type: Option<&str>, fields: &[(&str, &str)]) -> Record {
    Record {
        rec_type: rec_type.map(|t| t.to_owned()),
        fields: fields
            .iter()
            .map(|&(k, v)| (k.to_owned(), v.to_owned()))
            .collect(),
    }
}

fn sample() -> Recfile {
    Recfile {
        records: vec![
            record(None, &[("a", "0")]),
            record(Some("x"), &[("a", "1")]),
            record(Some("y"), &[("a", "2")]),
            record(Some("x"), &[("a", "3")]),
        ],
    }
}

#[test]
fn get_returns_first_match() {
    let r = record(None, &[("k", "1"), ("j", "2"), ("k", "3")]);
    assert_eq!(r.get("k"), Ok("1"));
    assert_eq!(r.get("j"), Ok("2"));
    assert_eq!(
        r.get("missing"),
        Err(RecError::MissingField { name: "missing".to_owned() })
    );
    assert_eq!(r.size(), 3);
}

#[test]
fn record_text_form() {
    let r = record(None, &[("name", "value"), ("k", "")]);
    assert_eq!(r.to_string(), "name: value\nk: \n\n");
}

#[test]
fn recfile_text_form() {
    let f = Recfile {
        records: vec![record(None, &[("a", "1")]), record(None, &[("b", "2"), ("c", "3")])],
    };
    assert_eq!(f.to_string(), "a: 1\n\nb: 2\nc: 3\n\n");
    let mut out = String::from("head\n");
    f.write(&mut out);
    assert_eq!(out, "head\na: 1\n\nb: 2\nc: 3\n\n");
}

#[test]
fn written_text_parses_back() {
    let f = Recfile {
        records: vec![
            record(None, &[("a", "1"), ("b", "two words")]),
            record(Some("t"), &[("%rec", "t"), ("c", "3")]),
            record(Some("t"), &[("d", "4")]),
        ],
    };
    let mut g = Recfile::parse(f.to_string().as_bytes()).unwrap();
    assert_eq!(g, f);
    g.records[1].rec_type = None;
    assert_ne!(Recfile::parse(g.to_string().as_bytes()).unwrap(), g);
}

#[test]
fn filter_by_type_keeps_matching_in_order() {
    let mut f = sample();
    f.filter_by_type("x");
    assert_eq!(
        f,
        Recfile {
            records: vec![record(Some("x"), &[("a", "1")]), record(Some("x"), &[("a", "3")])],
        }
    );
    let mut g = sample();
    g.filter_by_type("none");
    assert!(g.records.is_empty());
}

#[test]
fn iter_by_type_walks_matches() {
    let f = sample();
    let mut it = f.iter_by_type("x");
    assert_eq!(it.next().unwrap().get("a"), Ok("1"));
    assert_eq!(it.next().unwrap().get("a"), Ok("3"));
    assert!(it.next().is_none());
    assert!(it.next().is_none());
    assert_eq!(f.records.len(), 4);
}

#[test]
fn iter_walks_all() {
    let f = sample();
    let values: Vec<&str> = f.iter().map(|r| r.get("a").unwrap()).collect();
    assert_eq!(values, vec!["0", "1", "2", "3"]);
}

#[test]
fn parsed_text_writes_and_parses_back() {
    let input: &[u8] = b"# c\n  a:   1\nb:two\\\n words\n\n\n%rec: t\nc: 3\n\nd: 4\nd: 5\n";
    let parsed = Recfile::parse(input).unwrap();
    let again = Recfile::parse(parsed.to_string().as_bytes()).unwrap();
    assert_eq!(again, parsed);
    assert_eq!(again.records.len(), 3);
    assert_eq!(again.records[2].rec_type, Some("t".to_owned()));
}

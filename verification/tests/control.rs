use bulk::deb_ext::{WriteDebExt, _control_multiline};
use bulk::repo::deb::{parse_control, ControlError, ControlRecord};

fn record(fields: &[(&str, &str)]) -> ControlRecord {
    let mut r = ControlRecord::new();
    for (k, v) in fields {
        r.insert(k.as_bytes().to_vec(), v.as_bytes().to_vec());
    }
    r
}

fn pairs(r: &ControlRecord) -> Vec<(String, String)> {
    r.fields
        .iter()
        .map(|f| {
            (String::from_utf8(f.key.clone()).unwrap(), String::from_utf8(f.value.clone()).unwrap())
        })
        .collect()
}

fn render(records: &[ControlRecord]) -> Vec<u8> {
    let mut out = Vec::new();
    for r in records {
        r.output(&mut out);
        out.push(b'\n');
    }
    out
}

#[test]
fn multiline_marks_empty_lines_and_indents_the_rest() {
    assert_eq!(_control_multiline(b"one line"), b"one line".to_vec());
    assert_eq!(_control_multiline(b"a\nb"), b"a\n b".to_vec());
    assert_eq!(_control_multiline(b"a\n\nb"), b"a\n .\n b".to_vec());
    assert_eq!(_control_multiline(b"a\n\n\nb"), b"a\n .\n \n b".to_vec());
    assert_eq!(_control_multiline(b"a\n\n\n\nb"), b"a\n .\n \n .\n b".to_vec());
    assert_eq!(_control_multiline(b""), Vec::<u8>::new());
}

#[test]
fn multiline_drops_white_space_at_the_end() {
    assert_eq!(_control_multiline(b"text \t\r\n"), b"text".to_vec());
    assert_eq!(_control_multiline(b"a\nb\n\n"), b"a\n b\n .".to_vec());
    assert_eq!(_control_multiline(b"   "), Vec::<u8>::new());
}

#[test]
fn write_kv_writes_key_colon_value() {
    let mut out = Vec::new();
    out.write_kv(b"Package", b"demo");
    out.write_kv(b"Description", b"short\nlong text\n\nmore");
    assert_eq!(
        out,
        b"Package: demo\nDescription: short\n long text\n .\n more\n".to_vec()
    );
}

#[test]
fn write_kv_lines_writes_one_line_for_each_item() {
    let mut out = Vec::new();
    out.write_kv_lines(b"SHA256", &vec![b"abc 1 x".to_vec(), b"def 22 y  ".to_vec()]);
    assert_eq!(out, b"SHA256:\n abc 1 x\n def 22 y\n".to_vec());
    let mut out = Vec::new();
    out.write_kv_lines(b"Empty", &Vec::new());
    assert_eq!(out, b"Empty:\n".to_vec());
}

#[test]
fn parse_reads_records_separated_by_empty_lines() {
    let text = b"Package: a\nVersion: 1\n\nPackage: b\nVersion: 2\n";
    let records = parse_control(text).unwrap();
    assert_eq!(records.len(), 2);
    assert_eq!(records[0].get(b"Package").unwrap(), &b"a".to_vec());
    assert_eq!(records[0].get(b"Version").unwrap(), &b"1".to_vec());
    assert_eq!(records[1].get(b"Package").unwrap(), &b"b".to_vec());
    assert_eq!(records[1].get(b"version").unwrap(), &b"2".to_vec());
    assert!(records[1].get(b"Other").is_none());
}

#[test]
fn parse_of_nothing_is_no_record() {
    assert_eq!(parse_control(b"").unwrap().len(), 0);
    assert_eq!(parse_control(b"\n\n\n").unwrap().len(), 0);
}

#[test]
fn parse_joins_continuation_lines() {
    let text = b"Description: short\n long text\n .\n more\n  indented\n";
    let records = parse_control(text).unwrap();
    assert_eq!(records.len(), 1);
    assert_eq!(
        records[0].get(b"Description").unwrap(),
        &b"short\nlong text\n\nmore\n indented".to_vec()
    );
}

#[test]
fn parse_trims_the_first_line_of_a_value_and_keeps_the_key() {
    let records = parse_control(b"Key name:   spaced value \t\n").unwrap();
    assert_eq!(pairs(&records[0]), vec![("Key name".to_string(), "spaced value".to_string())]);
    let records = parse_control(b"a:b:c\n").unwrap();
    assert_eq!(pairs(&records[0]), vec![("a".to_string(), "b:c".to_string())]);
}

#[test]
fn parse_sets_carriage_returns_before_line_feeds_aside() {
    let records = parse_control(b"A: 1\r\nB: 2\r\n\r\nC: 3").unwrap();
    assert_eq!(records.len(), 2);
    assert_eq!(
        pairs(&records[0]),
        vec![("A".to_string(), "1".to_string()), ("B".to_string(), "2".to_string())]
    );
    assert_eq!(pairs(&records[1]), vec![("C".to_string(), "3".to_string())]);
}

#[test]
fn keys_are_one_whatever_their_case() {
    let records = parse_control(b"Package: a\nPACKAGE: b\npackage: c\n").unwrap();
    assert_eq!(records.len(), 1);
    // the first spelling stays, the last value wins
    assert_eq!(pairs(&records[0]), vec![("Package".to_string(), "c".to_string())]);
}

#[test]
fn fields_stand_in_the_order_of_their_keys() {
    let records = parse_control(b"zeta: 1\nAlpha: 2\nbeta: 3\n").unwrap();
    assert_eq!(
        pairs(&records[0]),
        vec![
            ("Alpha".to_string(), "2".to_string()),
            ("beta".to_string(), "3".to_string()),
            ("zeta".to_string(), "1".to_string())
        ]
    );
}

#[test]
fn a_line_without_colon_is_an_error() {
    assert!(matches!(parse_control(b"Package demo\n"), Err(ControlError::MissingColon)));
    assert!(matches!(parse_control(b"A: 1\n\nnonsense"), Err(ControlError::MissingColon)));
}

#[test]
fn a_continuation_without_a_field_is_an_error() {
    assert!(matches!(parse_control(b" continued\n"), Err(ControlError::StrayContinuation)));
    assert!(matches!(parse_control(b"A: 1\n\n more\n"), Err(ControlError::StrayContinuation)));
    assert_eq!(ControlError::MissingColon.message(), "Bad format of debian control");
    assert_eq!(ControlError::StrayContinuation.message(), "Bad format of debian control");
}

#[test]
fn what_is_written_reads_back() {
    let records = vec![
        record(&[
            ("Package", "demo"),
            ("Version", "1.0.0"),
            ("Description", "short\nlong text\n\nmore\n\n\nend"),
            ("Empty", ""),
        ]),
        record(&[("Package", "other"), ("Depends", "a,\nb")]),
    ];
    let text = render(&records);
    let back = parse_control(&text).unwrap();
    assert_eq!(back.len(), 2);
    assert_eq!(pairs(&back[0]), pairs(&records[0]));
    assert_eq!(pairs(&back[1]), pairs(&records[1]));
}

#[test]
fn a_lone_full_stop_in_a_value_does_not_read_back() {
    let records = vec![record(&[("Text", "a\n.\nb")])];
    let back = parse_control(&render(&records)).unwrap();
    assert_eq!(back[0].get(b"Text").unwrap(), &b"a\n\nb".to_vec());
}

#[test]
fn record_insert_get_remove() {
    let mut r = ControlRecord::new();
    assert_eq!(r.len(), 0);
    r.insert(b"Name".to_vec(), b"x".to_vec());
    r.insert(b"name".to_vec(), b"y".to_vec());
    r.insert(b"Arch".to_vec(), b"z".to_vec());
    assert_eq!(r.len(), 2);
    assert_eq!(r.get(b"NAME").unwrap(), &b"y".to_vec());
    assert_eq!(r.remove(b"nAmE"), Some(b"y".to_vec()));
    assert_eq!(r.remove(b"name"), None);
    assert_eq!(r.len(), 1);
    let copy = r.duplicate();
    assert_eq!(pairs(&copy), vec![("Arch".to_string(), "z".to_string())]);
}

#[test]
fn fields_written_in_any_order_read_back_as_one_record() {
    let mut out = Vec::new();
    out.write_kv(b"Version", b"1.0.0");
    out.write_kv(b"Package", b"demo");
    out.write_kv(b"Description", b"short\n\nlong");
    out.write_kv(b"Architecture", b"amd64");
    // no empty line ends the record
    let back = parse_control(&out).unwrap();
    assert_eq!(back.len(), 1);
    assert_eq!(
        pairs(&back[0]),
        vec![
            ("Architecture".to_string(), "amd64".to_string()),
            ("Description".to_string(), "short\n\nlong".to_string()),
            ("Package".to_string(), "demo".to_string()),
            ("Version".to_string(), "1.0.0".to_string()),
        ]
    );
    out.push(b'\n');
    let again = parse_control(&out).unwrap();
    assert_eq!(again.len(), 1);
    assert_eq!(pairs(&again[0]), pairs(&back[0]));
}

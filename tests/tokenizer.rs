use rustometry::point_cloud::{parse_records, split_lines, split_on, FormatError, PointFields};
use rustometry::theta::{check_point_count, FitError};

fn fields(p: &PointFields) -> (String, String, String) {
    (
        String::from_utf8(p.x.clone()).unwrap(),
        String::from_utf8(p.y.clone()).unwrap(),
        String::from_utf8(p.z.clone()).unwrap(),
    )
}

#[test]
fn split_on_keeps_empty_pieces() {
    let r = split_on(b"a\t\tb\t", b'\t');
    assert_eq!(r, vec![b"a".to_vec(), Vec::new(), b"b".to_vec(), Vec::new()]);
}

#[test]
fn split_on_without_separator_is_one_piece() {
    assert_eq!(split_on(b"", b'\t'), vec![Vec::<u8>::new()]);
    assert_eq!(split_on(b"abc", b'\t'), vec![b"abc".to_vec()]);
}

#[test]
fn split_lines_follows_line_endings() {
    assert_eq!(split_lines(b""), Vec::<Vec<u8>>::new());
    assert_eq!(split_lines(b"a\n"), vec![b"a".to_vec()]);
    assert_eq!(split_lines(b"a\r\nb"), vec![b"a".to_vec(), b"b".to_vec()]);
    assert_eq!(split_lines(b"a\n\nb\n"), vec![b"a".to_vec(), Vec::new(), b"b".to_vec()]);
    // a carriage return that no newline follows stays in the line
    assert_eq!(split_lines(b"a\r"), vec![b"a\r".to_vec()]);
}

#[test]
fn parse_three_points() {
    let text = b"6\t4\t-1\n1\t-8\t3\n2\t1\t-4\n";
    let pts = parse_records(text).unwrap();
    assert_eq!(pts.len(), 3);
    assert_eq!(fields(&pts[0]), ("6".to_string(), "4".to_string(), "-1".to_string()));
    assert_eq!(fields(&pts[1]), ("1".to_string(), "-8".to_string(), "3".to_string()));
    assert_eq!(fields(&pts[2]), ("2".to_string(), "1".to_string(), "-4".to_string()));
}

#[test]
fn parse_empty_text_has_no_points() {
    assert_eq!(parse_records(b"").unwrap().len(), 0);
}

#[test]
fn parse_crlf_lines() {
    let pts = parse_records(b"1.5\t2\t3e2\r\n-0.25\t0\t7\r\n").unwrap();
    assert_eq!(pts.len(), 2);
    assert_eq!(fields(&pts[0]), ("1.5".to_string(), "2".to_string(), "3e2".to_string()));
    assert_eq!(fields(&pts[1]), ("-0.25".to_string(), "0".to_string(), "7".to_string()));
}

#[test]
fn parse_too_few_fields() {
    assert_eq!(
        parse_records(b"1\t2\t3\n4\t5\n").unwrap_err(),
        FormatError::FieldCount { line_index: 1, found: 2 }
    );
}

#[test]
fn parse_too_many_fields() {
    assert_eq!(
        parse_records(b"1\t2\t3\t4\n").unwrap_err(),
        FormatError::FieldCount { line_index: 0, found: 4 }
    );
}

#[test]
fn parse_blank_line_is_an_error() {
    assert_eq!(
        parse_records(b"1\t2\t3\n\n4\t5\t6\n").unwrap_err(),
        FormatError::FieldCount { line_index: 1, found: 1 }
    );
}

#[test]
fn parse_reports_first_bad_line() {
    assert_eq!(
        parse_records(b"1\t2\n1\t2\t3\t4\n").unwrap_err(),
        FormatError::FieldCount { line_index: 0, found: 2 }
    );
}

#[test]
fn ten_thousand_lines_give_ten_thousand_points() {
    let mut text = String::new();
    for i in 0..10000 {
        text.push_str(&format!("{}.5\t{}\t-{}.25\n", i, i * 2, i % 7));
    }
    let pts = parse_records(text.as_bytes()).unwrap();
    assert_eq!(10000, pts.len());
    assert_eq!(fields(&pts[9999]), ("9999.5".to_string(), "19998".to_string(), "-3.25".to_string()));
}

#[test]
fn too_few_points_for_a_plane() {
    for n in 0..3usize {
        assert_eq!(check_point_count(n), Err(FitError::TooFewPoints { count: n }));
    }
}

#[test]
fn three_or_more_points_define_a_plane() {
    assert_eq!(check_point_count(3), Ok(()));
    assert_eq!(check_point_count(10000), Ok(()));
    assert_eq!(check_point_count(usize::MAX), Ok(()));
}

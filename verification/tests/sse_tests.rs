use ocid_core::sse::{data_lines, take_frame};

#[test]
fn frames_end_with_a_blank_line() {
    let mut buf = b"data: {\"a\":1}\n\ndata: {\"b\"".to_vec();
    let f = take_frame(&mut buf).unwrap();
    assert_eq!(f, b"data: {\"a\":1}\n\n".to_vec());
    assert_eq!(buf, b"data: {\"b\"".to_vec());
    assert!(take_frame(&mut buf).is_none());
    assert_eq!(buf, b"data: {\"b\"".to_vec());
    let mut empty: Vec<u8> = Vec::new();
    assert!(take_frame(&mut empty).is_none());
}

#[test]
fn data_lines_of_a_frame() {
    assert_eq!(data_lines("data: {\"x\":1}\n\n"), vec!["{\"x\":1}"]);
    assert_eq!(data_lines("event: e\r\n  data:two\r\ndata:  three\n: comment\n"), vec!["two", " three"]);
    assert_eq!(data_lines("data: last"), vec!["last"]);
    assert!(data_lines("").is_empty());
    assert!(data_lines("\n\n").is_empty());
}

use clitools::text::{LineReader, ReadError};

#[test]
fn line_reader_trims_each_line() {
    let mut reader = LineReader::new(b"a  \nb\r\n\nlast".to_vec());
    assert_eq!(reader.read_line(), Ok(Some("a".to_string())));
    assert_eq!(reader.read_line(), Ok(Some("b".to_string())));
    assert_eq!(reader.read_line(), Ok(Some("".to_string())));
    assert_eq!(reader.read_line(), Ok(Some("last".to_string())));
    assert_eq!(reader.read_line(), Ok(None));
    assert_eq!(reader.read_line(), Ok(None));
}

#[test]
fn line_reader_reports_invalid_utf8() {
    let mut reader = LineReader::new(vec![b'o', b'k', b'\n', 0xff, b'\n']);
    assert_eq!(reader.read_line(), Ok(Some("ok".to_string())));
    assert_eq!(reader.read_line(), Err(ReadError::InvalidUtf8));
    assert_eq!(ReadError::InvalidUtf8.message(), "stream did not contain valid UTF-8");
}

#[test]
fn raw_lines_rebuild_the_input() {
    let input = "one \r\ntwo\n\nthree";
    let mut reader = LineReader::new(input.as_bytes().to_vec());
    let mut whole = String::new();
    let mut count = 0;
    while let Ok(Some(line)) = reader.read_raw_line() {
        whole.push_str(&line);
        count += 1;
    }
    assert_eq!(whole, input);
    assert_eq!(count, 4);
}

#[test]
fn empty_input_has_no_lines() {
    let mut reader = LineReader::new(Vec::new());
    assert_eq!(reader.read_raw_line(), Ok(None));
    assert_eq!(reader.read_line(), Ok(None));
}

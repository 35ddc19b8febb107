use qlog_trim::line::{body_of, line_end, split_lines};
use qlog_trim::transform::trim;

fn bodies(content: &[u8]) -> Vec<Vec<u8>> {
    split_lines(content)
}

#[test]
fn content_splits_at_line_feeds() {
    assert_eq!(bodies(b"a\nb\n"), vec![b"a".to_vec(), b"b".to_vec()]);
    assert_eq!(bodies(b"a\nb"), vec![b"a".to_vec(), b"b".to_vec()]);
    assert_eq!(bodies(b"a\r\nb\r\n"), vec![b"a".to_vec(), b"b".to_vec()]);
    assert_eq!(bodies(b"\n"), vec![Vec::<u8>::new()]);
    assert_eq!(bodies(b"a\n\n"), vec![b"a".to_vec(), Vec::<u8>::new()]);
}

#[test]
fn empty_content_has_no_line() {
    assert_eq!(bodies(b""), Vec::<Vec<u8>>::new());
}

#[test]
fn line_end_is_past_the_line_feed() {
    let content: &[u8] = b"ab\ncd";
    assert_eq!(line_end(content, 0), 3);
    assert_eq!(line_end(content, 1), 3);
    assert_eq!(line_end(content, 2), 3);
    assert_eq!(line_end(content, 3), 5);
    assert_eq!(line_end(content, 5), 5);
}

#[test]
fn body_of_strips_one_terminator() {
    assert_eq!(body_of(b"ab\n"), b"ab");
    assert_eq!(body_of(b"ab\r\n"), b"ab");
    assert_eq!(body_of(b"ab\r\r\n"), b"ab\r");
    assert_eq!(body_of(b"ab\r"), b"ab\r");
    assert_eq!(body_of(b"ab"), b"ab");
    assert_eq!(body_of(b"\n"), b"");
    assert_eq!(body_of(b"\r\n"), b"");
    assert_eq!(body_of(b""), b"");
}

#[test]
fn as_many_lines_come_out_as_went_in() {
    let inputs: Vec<&[u8]> = vec![
        b"",
        b"\n",
        b"a",
        b" a\n",
        b" a\n b",
        b"\n\n\n",
        b" one\r\n\ttwo\n\n three\r\n",
        b"a\r\r\n \r",
    ];
    for input in inputs {
        let output: Vec<u8> = trim(input).unwrap();
        assert_eq!(split_lines(&output).len(), split_lines(input).len());
    }
    assert_eq!(split_lines(b" one\r\n\ttwo\n\n three").len(), 4);
}

#[test]
fn the_lines_of_the_output_are_the_trimmed_lines() {
    let output: Vec<u8> = trim(b"  one\r\n\ttwo\n\n three  ").unwrap();
    assert_eq!(
        split_lines(&output),
        vec![b"one".to_vec(), b"two".to_vec(), Vec::<u8>::new(), b"three  ".to_vec()]
    );
}

#[test]
fn lines_agree_with_the_standard_library() {
    let inputs: Vec<&str> = vec!["", "a", "a\n", "a\r\n", "a\n\nb", "\r\n\r\n", "a\r\r\nb\r", "x\ny\r\nz"];
    for input in inputs {
        let expected: Vec<Vec<u8>> = std::io::BufRead::lines(input.as_bytes())
            .map(|line| line.unwrap().into_bytes())
            .collect();
        assert_eq!(split_lines(input.as_bytes()), expected);
    }
}

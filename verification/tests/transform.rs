use qlog_trim::transform::{trim, trim_line};

fn trimmed(content: &[u8]) -> Vec<u8> {
    match trim(content) {
        Ok(bytes) => bytes,
        Err(stop) => panic!("line {} is not UTF-8", stop.line),
    }
}

#[test]
fn leading_whitespace_is_removed_and_the_rest_kept() {
    assert_eq!(trimmed(b"   a  b\t"), b"a  b\t\r\n".to_vec());
    assert_eq!(trim_line(b"   a  b\t"), Some(b"a  b\t\r\n".to_vec()));
    assert_eq!(trim_line(b"   a  b\t\n"), Some(b"a  b\t\r\n".to_vec()));
}

#[test]
fn tabs_and_spaces_are_both_leading_whitespace() {
    assert_eq!(trimmed(b"\t \t x\n"), b"x\r\n".to_vec());
    assert_eq!(trimmed(b" \x0b\x0c x\n"), b"x\r\n".to_vec());
}

#[test]
fn empty_content_gives_empty_output() {
    assert_eq!(trimmed(b""), Vec::<u8>::new());
}

#[test]
fn empty_lines_are_kept() {
    assert_eq!(trimmed(b"\n\n"), b"\r\n\r\n".to_vec());
    assert_eq!(trimmed(b"a\n\nb\n"), b"a\r\n\r\nb\r\n".to_vec());
}

#[test]
fn a_line_of_whitespace_becomes_an_empty_line() {
    assert_eq!(trimmed(b"   \t\n x\n"), b"\r\nx\r\n".to_vec());
}

#[test]
fn the_last_line_gets_a_terminator() {
    assert_eq!(trimmed(b"a\n b"), b"a\r\nb\r\n".to_vec());
    assert_eq!(trimmed(b"b"), b"b\r\n".to_vec());
}

#[test]
fn line_feed_and_cr_lf_inputs_give_the_same_output() {
    let bare: Vec<u8> = trimmed(b"  one\n\ttwo\n\nthree  \n");
    let wide: Vec<u8> = trimmed(b"  one\r\n\ttwo\r\n\r\nthree  \r\n");
    assert_eq!(bare, wide);
    assert_eq!(bare, b"one\r\ntwo\r\n\r\nthree  \r\n".to_vec());
    assert_eq!(trimmed(b" a\n b"), trimmed(b" a\r\n b"));
}

#[test]
fn mixed_terminators_are_all_rewritten() {
    assert_eq!(trimmed(b" a\r\n b\n c"), b"a\r\nb\r\nc\r\n".to_vec());
}

#[test]
fn only_one_carriage_return_belongs_to_the_terminator() {
    assert_eq!(trimmed(b"a\r\r\n"), b"a\r\r\n".to_vec());
    assert_eq!(trimmed(b"a\rb\n"), b"a\rb\r\n".to_vec());
}

#[test]
fn a_carriage_return_without_line_feed_is_content() {
    assert_eq!(trimmed(b"a\r"), b"a\r\r\n".to_vec());
    assert_eq!(trimmed(b"\rx\n"), b"x\r\n".to_vec());
}

#[test]
fn trimming_twice_changes_nothing() {
    let inputs: Vec<&[u8]> = vec![
        b"",
        b"   a  b\t",
        b"  one\r\n\ttwo\n\n three",
        b"a\r\r\n \r\n",
        "\u{3000}\u{2003}x y\u{a0}\n z".as_bytes(),
    ];
    for input in inputs {
        let once: Vec<u8> = trimmed(input);
        let twice: Vec<u8> = trimmed(&once);
        assert_eq!(once, twice);
    }
}

#[test]
fn unicode_whitespace_is_removed_from_the_front_only() {
    let input: &str = "\u{3000}\u{2003}\u{a0}\u{85}\u{1680}x y\u{a0}\n";
    assert_eq!(trimmed(input.as_bytes()), "x y\u{a0}\r\n".as_bytes().to_vec());
}

#[test]
fn characters_that_only_look_like_whitespace_stay() {
    let input: &str = " \u{200b}x\n\u{feff}y\n\u{180e}z\n";
    assert_eq!(
        trimmed(input.as_bytes()),
        "\u{200b}x\r\n\u{feff}y\r\n\u{180e}z\r\n".as_bytes().to_vec()
    );
}

#[test]
fn whitespace_is_what_the_standard_library_calls_whitespace() {
    let mut code: u32 = 0;
    while code <= 0x10FFFF {
        if let Some(c) = char::from_u32(code) {
            if c != '\n' {
                let line: String = format!("{}x{} ", c, c);
                let expected: String = format!("{}\r\n", line.trim_start());
                assert_eq!(
                    trim_line(line.as_bytes()),
                    Some(expected.into_bytes()),
                    "U+{:04X}",
                    code
                );
            }
        }
        code += 1;
    }
}

#[test]
fn a_line_that_is_not_utf8_stops_the_transform() {
    match trim(b" a\n\xff\n b\n") {
        Ok(_) => panic!("accepted"),
        Err(stop) => {
            assert_eq!(stop.line, 1);
            assert_eq!(stop.written, b"a\r\n".to_vec());
        }
    }
    match trim(b"\xc3\n") {
        Ok(_) => panic!("accepted"),
        Err(stop) => {
            assert_eq!(stop.line, 0);
            assert_eq!(stop.written, Vec::<u8>::new());
        }
    }
    assert_eq!(trim_line(b" \xed\xa0\x80\n"), None);
    assert_eq!(trim_line(b"\xc0\x80"), None);
}

#[test]
fn what_was_written_before_a_bad_line_is_itself_accepted() {
    match trim(b" a\n  b\r\n\xfe c\n") {
        Ok(_) => panic!("accepted"),
        Err(stop) => {
            assert_eq!(stop.line, 2);
            assert_eq!(trimmed(&stop.written), stop.written);
        }
    }
}

#[test]
fn one_line_at_a_time_gives_the_same_as_the_whole() {
    let pieces: Vec<&[u8]> = vec![b"  one\r\n", b"\ttwo\n", b"\n", b" three"];
    let mut whole: Vec<u8> = Vec::new();
    let mut out: Vec<u8> = Vec::new();
    for piece in pieces {
        whole.extend_from_slice(piece);
        out.extend_from_slice(&trim_line(piece).unwrap());
    }
    assert_eq!(trimmed(&whole), out);
}

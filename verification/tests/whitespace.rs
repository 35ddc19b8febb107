use qlog_trim::encoding::is_utf8;
use qlog_trim::transform::trim_line;
use qlog_trim::whitespace::leading_whitespace;

#[test]
fn leading_whitespace_is_counted_in_bytes() {
    assert_eq!(leading_whitespace(b""), 0);
    assert_eq!(leading_whitespace(b"a  "), 0);
    assert_eq!(leading_whitespace(b"  \ta "), 3);
    assert_eq!(leading_whitespace(b" \r\n\x0b\x0c"), 5);
    assert_eq!(leading_whitespace("\u{a0}\u{2003}\u{3000}x".as_bytes()), 8);
    assert_eq!(leading_whitespace("\u{85}".as_bytes()), 2);
}

#[test]
fn a_cut_whitespace_character_is_not_whitespace() {
    assert_eq!(leading_whitespace(b" \xe2\x80"), 1);
    assert_eq!(leading_whitespace(b" \xc2"), 1);
    assert_eq!(leading_whitespace(b"\xe2\x80\x8b"), 0);
    assert_eq!(leading_whitespace(b"\xe2\x80\x8a"), 3);
}

#[test]
fn leading_whitespace_agrees_with_trim_start() {
    let texts: Vec<&str> = vec![
        "",
        " ",
        "x",
        "  x  ",
        "\t\u{2028}\u{2029}\u{202f}\u{205f}x",
        "\u{1680}\u{2000}\u{200a}\u{200b}",
        "\u{1f600} x",
    ];
    for text in texts {
        let expected: usize = text.len() - text.trim_start().len();
        assert_eq!(leading_whitespace(text.as_bytes()), expected, "{:?}", text);
    }
}

#[test]
fn a_line_is_accepted_exactly_when_it_is_utf8_with_its_terminator() {
    let lines: Vec<&[u8]> = vec![
        b"",
        b"\n",
        b"\r\n",
        b"a\n",
        b"a\r\n",
        b"\xff\n",
        b"\xc3\r\n",
        b"\xc3\xa9\r\n",
        b"\xe2\x82\n",
        b"\xe2\x82\xac",
        b"\xf0\x9f\x98\x80\n",
    ];
    for line in lines {
        assert_eq!(trim_line(line).is_some(), is_utf8(line), "{:02x?}", line);
    }
}

use chash::text::{chars_of, char_is_space, line_ranges, parse_u32_range, trim_range};

#[test]
fn whitespace_matches_std() {
    for c in ['\t', '\n', '\u{b}', '\u{c}', '\r', ' ', '\u{85}', '\u{a0}', '\u{1680}', '\u{2000}',
              '\u{200a}', '\u{2028}', '\u{2029}', '\u{202f}', '\u{205f}', '\u{3000}', 'a', '0',
              '\u{200b}', '\u{feff}', '\u{180e}'] {
        assert_eq!(char_is_space(c), c.is_whitespace(), "{:?}", c);
    }
}

#[test]
fn trim_matches_std() {
    for s in ["", "  ", " a b ", "\u{3000}x\t", "x"] {
        let cs = chars_of(s);
        let (a, b) = trim_range(&cs, 0, cs.len());
        let got: String = cs[a..b].iter().collect();
        assert_eq!(got, s.trim());
    }
}

#[test]
fn parse_matches_std() {
    for s in ["0", "42", "+42", "-1", "", "+", "4294967295", "4294967296", "00012", "1a", " 1"] {
        let cs = chars_of(s);
        assert_eq!(parse_u32_range(&cs, 0, cs.len()), s.parse::<u32>().ok(), "{:?}", s);
    }
}

#[test]
fn lines_match_std() {
    for s in ["", "\n", "a", "a\n", "a\n\n", "a\r\nb", "a\rb\n", "foo\r\nbar\n\nbaz\r", "\r\n"] {
        let cs = chars_of(s);
        let got: Vec<String> = line_ranges(&cs).iter().map(|&(a, b)| cs[a..b].iter().collect()).collect();
        let want: Vec<String> = s.lines().map(|l| l.to_string()).collect();
        assert_eq!(got, want, "{:?}", s);
    }
}

use ofi_pass::text::{is_whitespace, split_lines, split_whitespace, str_lt, trim, trim_end};

#[test]
fn whitespace_agrees_with_std() {
    for c in (0u32..0x11000).filter_map(char::from_u32) {
        assert_eq!(is_whitespace(c), c.is_whitespace(), "{:?}", c);
    }
}

#[test]
fn lines_like_split() {
    for s in ["", "a", "\n", "a\nb", "a\n\nb\n", "\n\n", "é\nü"] {
        let expected: Vec<String> = s.split('\n').map(String::from).collect();
        assert_eq!(split_lines(s), expected);
    }
}

#[test]
fn words_like_split_whitespace() {
    for s in ["", " ", "a", " a  b\tc\n", "\u{3000}x\u{2028}y ", "ab"] {
        let expected: Vec<String> = s.split_whitespace().map(String::from).collect();
        assert_eq!(split_whitespace(s), expected);
    }
}

#[test]
fn trims_like_std() {
    for s in ["", " ", " a ", "a\n", "\u{a0}b\u{2009}", "x y"] {
        assert_eq!(trim(s), s.trim());
        assert_eq!(trim_end(s), s.trim_end());
    }
}

#[test]
fn order_like_std() {
    let words = ["", "a", "ab", "b", "B", "é", "e", ":x", "aa", "a\u{10000}"];
    for a in words {
        for b in words {
            assert_eq!(str_lt(a, b), a < b, "{:?} {:?}", a, b);
        }
    }
}

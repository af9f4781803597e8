use rz::number::{
    NumberFault, decimal_text, parse_signed, parse_size, parse_u32, parse_unsigned, signed_text,
    two_digit_text,
};
use rz::path::{file_name, is_child, join_path, path_comes_before, same_path};
use rz::text::{
    begins, char_is_hex, char_is_space, comes_before, ends, first_word, joined, lines_of, lowered,
    mentions, repeated, replaced, split_text, trimmed, trimmed_end, trimmed_start,
};

#[test]
fn whitespace_is_that_of_unicode() {
    for n in 0..=0x10_ffff {
        if let Some(c) = char::from_u32(n) {
            assert_eq!(char_is_space(c), c.is_whitespace());
            assert_eq!(char_is_hex(c), c.is_ascii_hexdigit());
        }
    }
}

const SAMPLES: [&str; 12] = [
    "",
    " ",
    "a",
    " a b ",
    "\ta\r\n\nb\r",
    "a\n",
    "\r\n",
    "a\r\n\r\nb\n\n",
    "ÄÖ A\u{3000}",
    "\u{85}x\u{2028}",
    "a,b,,c,",
    "T-\u{1F600}\u{301}",
];

#[test]
fn text_is_handled_as_std_does() {
    for text in SAMPLES {
        assert_eq!(trimmed(text), text.trim());
        assert_eq!(trimmed_start(text), text.trim_start());
        assert_eq!(trimmed_end(text), text.trim_end());
        assert_eq!(lines_of(text), text.lines().collect::<Vec<_>>());
        assert_eq!(lowered(text), text.to_ascii_lowercase());
        assert_eq!(first_word(text), text.split_whitespace().next().unwrap_or_default());
        for c in ['a', ',', '\n', ' '] {
            assert_eq!(split_text(text, c), text.split(c).collect::<Vec<_>>());
            assert_eq!(replaced(text, c, "<>"), text.replace(c, "<>"));
        }
        for part in SAMPLES {
            assert_eq!(mentions(text, part), text.contains(part));
            assert_eq!(begins(text, part), text.starts_with(part));
            assert_eq!(ends(text, part), text.ends_with(part));
            assert_eq!(comes_before(text, part), text < part);
        }
    }
    assert_eq!(repeated('─', 3), "───");
    assert_eq!(joined(&vec!["a".into(), "".into(), "b".into()], ", "), "a, , b");
    assert_eq!(joined(&Vec::new(), ", "), "");
}

#[test]
fn joining_is_undone_by_splitting() {
    let parts = vec!["a".to_owned(), String::new(), "b c".to_owned()];
    assert_eq!(split_text(&joined(&parts, "\t"), '\t'), parts);
}

#[test]
fn numbers_are_read_as_std_does() {
    for text in [
        "", "+", "-", "0", "+0", "-0", "007", "12", "+12", "-12", "1_000", " 1", "1 ", "９",
        "4294967295", "4294967296", "9223372036854775807", "9223372036854775808",
        "-9223372036854775808", "-9223372036854775809", "18446744073709551615",
        "18446744073709551616", "99999999999999999999x", "--1", "+-1",
    ] {
        assert_eq!(parse_unsigned(text, u64::MAX).ok(), text.parse::<u64>().ok());
        assert_eq!(parse_u32(text).ok(), text.parse::<u32>().ok());
        assert_eq!(parse_size(text).ok(), text.parse::<usize>().ok());
        assert_eq!(parse_signed(text).ok(), text.parse::<i64>().ok());
    }
    assert_eq!(parse_unsigned("", 9), Err(NumberFault::Empty));
    assert_eq!(parse_unsigned("x", 9), Err(NumberFault::InvalidDigit));
    assert_eq!(parse_unsigned("10", 9), Err(NumberFault::TooLarge));
    assert_eq!(parse_signed("-9223372036854775809"), Err(NumberFault::TooSmall));
}

#[test]
fn numbers_are_written_as_std_does() {
    for n in [0, 1, 9, 10, 99, 100, 12_345, u64::MAX] {
        assert_eq!(decimal_text(n), n.to_string());
        assert_eq!(two_digit_text(n), format!("{n:02}"));
        assert_eq!(parse_unsigned(&decimal_text(n), u64::MAX), Ok(n));
    }
    for n in [0, -1, 7, i64::MIN, i64::MAX] {
        assert_eq!(signed_text(n), n.to_string());
        assert_eq!(parse_signed(&signed_text(n)), Ok(n));
    }
}

const PATHS: [&str; 20] = [
    "", "/", ".", "..", "a", "a/", "a/b", "a//b", "a/./b", "./a", "a/.", "a/..", "../a", "/a",
    "//a", "/a/b/", "/a/b.c", "/a b", "/.", "ä/ö",
];

#[test]
fn paths_are_handled_as_std_does() {
    for a in PATHS {
        let path = std::path::Path::new(a);
        let name = path.file_name().map(|name| name.to_str().unwrap()).unwrap_or_default();
        assert_eq!(file_name(a), name);
        for b in PATHS {
            let other = std::path::Path::new(b);
            assert_eq!(same_path(a, b), path == other, "{a:?} {b:?}");
            assert_eq!(path_comes_before(a, b), path < other, "{a:?} {b:?}");
            assert_eq!(is_child(a, b), path.parent() == Some(other), "{a:?} {b:?}");
            assert_eq!(join_path(a, b), path.join(other).to_str().unwrap());
        }
    }
}

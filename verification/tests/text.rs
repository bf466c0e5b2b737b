use ocr_gateway::text::{
    contains, decimal_text, is_white_space, join, parse_number, remove_all, split_lines,
    starts_with, strip_end, strip_start, text_after_last, text_before_first, trim,
};

#[test]
fn white_space_is_that_of_unicode() {
    for code in 0..=0x10FFFFu32 {
        if let Some(c) = char::from_u32(code) {
            assert_eq!(is_white_space(c), c.is_whitespace(), "U+{:04X}", code);
        }
    }
}

#[test]
fn trimming_takes_white_space_off_both_ends() {
    assert_eq!(trim("  a b\t\n"), "a b");
    assert_eq!(trim("\u{2003}\u{85}x\u{3000}"), "x");
    assert_eq!(trim(" \r\n "), "");
    assert_eq!(trim(""), "");
    assert_eq!(trim("\u{200B}x"), "\u{200B}x");
}

#[test]
fn numbers_are_read_as_std_reads_them() {
    let samples = [
        "0", "7", "+7", "-7", "+", "-", "", "007", "65535", "65536", "1 ", " 1", "1a", "٣",
        "18446744073709551615", "18446744073709551616", "99999999999999999999999", "++1",
    ];
    for s in samples {
        assert_eq!(parse_number(s, u64::MAX), s.parse::<u64>().ok(), "{:?}", s);
        assert_eq!(
            parse_number(s, u16::MAX as u64),
            s.parse::<u16>().ok().map(|n| n as u64),
            "{:?}",
            s
        );
    }
}

#[test]
fn numbers_are_written_as_std_writes_them() {
    for n in [0usize, 1, 9, 10, 99, 100, 40, 1024, usize::MAX] {
        assert_eq!(decimal_text(n), n.to_string());
    }
}

#[test]
fn lines_are_split_as_std_splits_them() {
    let samples = ["", "\n", "a", "a\n", "a\nb", "a\r\nb\r\n", "a\rb", "\r\n", "a\n\nb", "a\r", "a\r\r\n"];
    for s in samples {
        let expected: Vec<String> = s.lines().map(|l| l.to_string()).collect();
        assert_eq!(split_lines(s), expected, "{:?}", s);
    }
}

#[test]
fn parts_are_removed_as_std_removes_them() {
    let samples = ["", "ab", "aab", "abab", "xabyab", "aabb", "a"];
    for s in samples {
        assert_eq!(remove_all(s, "ab"), s.replace("ab", ""), "{:?}", s);
    }
    assert_eq!(remove_all("<|r<|ref|>ef|>", "<|ref|>"), "<|ref|>");
}

#[test]
fn ends_are_stripped() {
    assert_eq!(strip_end("http://a//", '/'), "http://a");
    assert_eq!(strip_end("///", '/'), "");
    assert_eq!(strip_end("a/b", '/'), "a/b");
    assert_eq!(strip_start("Pages:Pages: 3", "Pages:"), " 3");
    assert_eq!(strip_start("Page", "Pages:"), "Page");
}

#[test]
fn texts_are_cut_at_marks() {
    assert_eq!(text_before_first("title[[1]]", '['), "title");
    assert_eq!(text_before_first("title", '['), "title");
    assert_eq!(text_before_first("[x", '['), "");
    assert_eq!(text_after_last("a.tar.gz", '.'), "gz");
    assert_eq!(text_after_last("noext", '.'), "noext");
    assert_eq!(text_after_last("dot.", '.'), "");
}

#[test]
fn parts_are_found_and_joined() {
    assert!(contains("vLLM down", "LM d"));
    assert!(contains("x", ""));
    assert!(!contains("", "x"));
    assert!(starts_with("data: x", "data: "));
    assert!(!starts_with("data:", "data: "));
    assert_eq!(ocr_gateway::text::concat("é", "ü"), "éü");
    assert_eq!(join(&vec!["a".to_string(), "b".to_string(), "".to_string()], ", "), "a, b, ");
    assert_eq!(join(&vec![], ", "), "");
}

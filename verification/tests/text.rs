use alignment_report::inline::get_queries;
use alignment_report::text::byte_is_space;
use alignment_report::text::bytes_eq;
use alignment_report::text::parse_unsigned;
use alignment_report::text::split_lines;
use alignment_report::text::split_on;
use alignment_report::text::split_tokens;
use alignment_report::text::starts_with;

#[test]
fn lines_are_cut_at_line_feeds() {
    assert_eq!(split_lines(b"ab\ncd"), vec![b"ab".to_vec(), b"cd".to_vec()]);
    assert_eq!(split_lines(b"ab\ncd\n"), vec![b"ab".to_vec(), b"cd".to_vec()]);
    assert_eq!(split_lines(b"ab\n\ncd"), vec![b"ab".to_vec(), b"".to_vec(), b"cd".to_vec()]);
    assert_eq!(split_lines(b"\n"), vec![b"".to_vec()]);
    assert!(split_lines(b"").is_empty());
}

#[test]
fn lines_lose_a_carriage_return_before_the_line_feed_only() {
    assert_eq!(split_lines(b"ab\r\ncd\r"), vec![b"ab".to_vec(), b"cd\r".to_vec()]);
    assert_eq!(split_lines(b"\r\n"), vec![b"".to_vec()]);
    assert_eq!(split_lines(b"a\r\r\n"), vec![b"a\r".to_vec()]);
}

#[test]
fn lines_agree_with_the_standard_library() {
    for text in ["", "a", "a\n", "a\nb", "a\r\nb\r\n", "\n\n", "x\n\ny\n"] {
        let expected: Vec<Vec<u8>> = text.lines().map(|l| l.as_bytes().to_vec()).collect();
        assert_eq!(split_lines(text.as_bytes()), expected);
    }
}

#[test]
fn tokens_are_runs_without_whitespace() {
    assert_eq!(
        split_tokens(b"  ab \t cd\x0b\x0c e  "),
        vec![b"ab".to_vec(), b"cd".to_vec(), b"e".to_vec()]
    );
    assert!(split_tokens(b"").is_empty());
    assert!(split_tokens(b" \t\r\n").is_empty());
    assert_eq!(split_tokens(b"one"), vec![b"one".to_vec()]);
}

#[test]
fn tokens_agree_with_the_standard_library() {
    for text in ["", " ", "a b", "  a  b  ", "a\tb\nc", "Query= Q1 rest", "x"] {
        let expected: Vec<Vec<u8>> =
            text.split_whitespace().map(|l| l.as_bytes().to_vec()).collect();
        assert_eq!(split_tokens(text.as_bytes()), expected);
    }
}

#[test]
fn whitespace_bytes() {
    for b in [9u8, 10, 11, 12, 13, 32] {
        assert!(byte_is_space(b));
    }
    for b in [0u8, 8, 14, 31, 33, 65, 160, 255] {
        assert!(!byte_is_space(b));
    }
}

#[test]
fn prefixes() {
    assert!(starts_with(b"Query= Q1", b"Query= "));
    assert!(!starts_with(b"Query=Q1", b"Query= "));
    assert!(!starts_with(b"Que", b"Query= "));
    assert!(starts_with(b"abc", b""));
    assert!(starts_with(b"", b""));
    assert!(!starts_with(b" >", b">"));
}

#[test]
fn byte_strings_compare_by_content() {
    assert!(bytes_eq(b"Q1", b"Q1"));
    assert!(!bytes_eq(b"Q1", b"Q2"));
    assert!(!bytes_eq(b"Q1", b"Q10"));
    assert!(bytes_eq(b"", b""));
}

#[test]
fn unsigned_numbers() {
    assert_eq!(parse_unsigned(b"0"), Some(0));
    assert_eq!(parse_unsigned(b"42"), Some(42));
    assert_eq!(parse_unsigned(b"+7"), Some(7));
    assert_eq!(parse_unsigned(b"007"), Some(7));
    assert_eq!(parse_unsigned(b"18446744073709551615"), Some(u64::MAX));
    assert_eq!(parse_unsigned(b"18446744073709551616"), None);
    assert_eq!(parse_unsigned(b"99999999999999999999999"), None);
    assert_eq!(parse_unsigned(b""), None);
    assert_eq!(parse_unsigned(b"+"), None);
    assert_eq!(parse_unsigned(b"-3"), None);
    assert_eq!(parse_unsigned(b"1a"), None);
    assert_eq!(parse_unsigned(b"++1"), None);
    assert_eq!(parse_unsigned(b" 1"), None);
    assert_eq!(parse_unsigned(b"1.5"), None);
}

#[test]
fn unsigned_numbers_agree_with_the_standard_library() {
    for text in ["0", "12", "+12", "", "+", "-1", "1e3", "18446744073709551615", "18446744073709551616", "0000000000000000000000001"] {
        assert_eq!(parse_unsigned(text.as_bytes()), text.parse::<u64>().ok());
    }
}

#[test]
fn split_on_cuts_at_every_separator() {
    assert_eq!(split_on(b"a,b,,c", b","), vec![b"a".to_vec(), b"b".to_vec(), b"".to_vec(), b"c".to_vec()]);
    assert_eq!(split_on(b"abc", b","), vec![b"abc".to_vec()]);
    assert_eq!(split_on(b"", b","), vec![b"".to_vec()]);
    assert_eq!(split_on(b",", b","), vec![b"".to_vec(), b"".to_vec()]);
    assert_eq!(split_on(b"aaa", b"aa"), vec![b"".to_vec(), b"a".to_vec()]);
    assert_eq!(split_on(b"abc", b""), vec![b"abc".to_vec()]);
}

#[test]
fn get_queries_cuts_at_the_query_marker() {
    let parts = get_queries(b"head\nQuery= Q1\nbody one\nQuery= Q2\nbody two\n");
    assert_eq!(
        parts,
        vec![b"head\n".to_vec(), b"Q1\nbody one\n".to_vec(), b"Q2\nbody two\n".to_vec()]
    );
    assert_eq!(get_queries(b"no marker"), vec![b"no marker".to_vec()]);
    assert_eq!(get_queries(b""), vec![b"".to_vec()]);
    assert_eq!(get_queries(b"Query= "), vec![b"".to_vec(), b"".to_vec()]);
}

#[test]
fn get_queries_agrees_with_the_standard_library() {
    for text in ["", "Query= a", "xQuery= aQuery= b", "Query=Query= Query= ", "Query= Query= "] {
        let expected: Vec<Vec<u8>> = text.split("Query= ").map(|l| l.as_bytes().to_vec()).collect();
        assert_eq!(get_queries(text.as_bytes()), expected);
    }
}

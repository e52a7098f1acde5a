use sosdb::integer::parse_i32;
use sosdb::lines::split_lines;
use sosdb::text::{chars_of, find, same_text, string_of};

fn lines_of(text: &str) -> Vec<String> {
    let chars = chars_of(text);
    split_lines(&chars).iter().map(|line| string_of(line)).collect()
}

#[test]
fn lines_agree_with_std() {
    for text in [
        "", "a", "a\n", "a\nb", "a\nb\n", "\n", "\n\n", "a\n\nb", "a\r\nb\r\n", "a\r", "a\r\n",
        "\r\n", "\r", "a\r\r\nb", "a\n\rb", "foo\nbar\n\r\nbaz\r", "é\nü\r\n\u{1F600}", " \n ",
        "no line feed at all", "\n\n\nx\n\n",
    ] {
        let expected: Vec<String> = text.lines().map(String::from).collect();
        assert_eq!(lines_of(text), expected, "{text:?}");
    }
}

#[test]
fn lines_of_a_small_file() {
    assert_eq!(
        lines_of("sosdb\nobject a\r\n  x=i:1\n\nend"),
        vec!["sosdb", "object a", "  x=i:1", "", "end"]
    );
}

#[test]
fn characters_and_strings_convert_both_ways() {
    for text in ["", "abc", "héllo", "a\nb", "\u{1F600}x"] {
        let chars = chars_of(text);
        assert_eq!(chars, text.chars().collect::<Vec<char>>());
        assert_eq!(string_of(&chars), text);
    }
}

#[test]
fn find_returns_the_first_index() {
    let chars = chars_of("a=b=c");
    assert_eq!(find(&chars, '='), Some(1));
    assert_eq!(find(&chars, 'a'), Some(0));
    assert_eq!(find(&chars, 'c'), Some(4));
    assert_eq!(find(&chars, 'x'), None);
    assert_eq!(find(&[], 'x'), None);
}

#[test]
fn same_text_compares_characters() {
    assert!(same_text("", ""));
    assert!(same_text("héllo", "héllo"));
    assert!(!same_text("héllo", "hello"));
    assert!(!same_text("a", "ab"));
    assert!(!same_text("ab", "a"));
    assert!(!same_text("a", "A"));
}

#[test]
fn parse_i32_reads_signed_decimals() {
    let parse = |text: &str| parse_i32(&chars_of(text));
    assert_eq!(parse("0"), Some(0));
    assert_eq!(parse("-2147483648"), Some(i32::MIN));
    assert_eq!(parse("+2147483647"), Some(i32::MAX));
    assert_eq!(parse("2147483648"), None);
    assert_eq!(parse("-"), None);
    assert_eq!(parse(""), None);
    assert_eq!(parse("12x"), None);
    assert_eq!(parse("99999999999x"), None);
}

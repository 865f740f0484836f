use http_server::text::{
    chars_of, decimal_string, find, is_whitespace, parse_number, split_path, split_whitespace,
    string_of, to_lowercase, trimmed,
};

fn chars(s: &str) -> Vec<char> {
    s.chars().collect()
}

#[test]
fn chars_of_gives_every_character() {
    assert_eq!(chars_of("a/é{}"), vec!['a', '/', 'é', '{', '}']);
    assert_eq!(chars_of(""), Vec::<char>::new());
}

#[test]
fn string_of_builds_the_string() {
    assert_eq!(string_of(&chars("hello")), "hello");
    assert_eq!(string_of(&chars("")), "");
    assert_eq!(string_of(&chars("päth")), "päth");
}

#[test]
fn split_path_drops_empty_pieces() {
    assert_eq!(split_path("/echo/abc"), vec!["echo", "abc"]);
    assert_eq!(split_path("//echo///abc//"), vec!["echo", "abc"]);
    assert_eq!(split_path("echo"), vec!["echo"]);
}

#[test]
fn split_path_of_root_is_empty() {
    assert_eq!(split_path("/"), Vec::<String>::new());
    assert_eq!(split_path(""), Vec::<String>::new());
    assert_eq!(split_path("///"), Vec::<String>::new());
}

#[test]
fn split_path_keeps_braces_and_spaces() {
    assert_eq!(split_path("/files/{file_name}"), vec!["files", "{file_name}"]);
    assert_eq!(split_path("/a b/c"), vec!["a b", "c"]);
}

#[test]
fn split_whitespace_gives_tokens() {
    assert_eq!(split_whitespace("GET /echo/abc HTTP/1.1\r\n"), vec!["GET", "/echo/abc", "HTTP/1.1"]);
    assert_eq!(split_whitespace("  GET\t\t/ \n"), vec!["GET", "/"]);
    assert_eq!(split_whitespace(" \r\n"), Vec::<String>::new());
    assert_eq!(split_whitespace(""), Vec::<String>::new());
}

#[test]
fn whitespace_is_the_unicode_set() {
    for c in [' ', '\t', '\n', '\u{0B}', '\u{0C}', '\r', '\u{85}', '\u{A0}', '\u{1680}', '\u{2000}',
        '\u{200A}', '\u{2028}', '\u{2029}', '\u{202F}', '\u{205F}', '\u{3000}']
    {
        assert!(is_whitespace(c));
    }
    for c in ['a', '/', '\u{08}', '\u{0E}', '\u{1F}', '\u{200B}', '\u{FEFF}', '\u{2001}'] {
        assert_eq!(is_whitespace(c), c.is_whitespace());
    }
}

#[test]
fn whitespace_agrees_with_std_on_all_characters() {
    let mut u: u32 = 0;
    while u <= 0x10FFFF {
        if let Some(c) = char::from_u32(u) {
            assert_eq!(is_whitespace(c), c.is_whitespace());
        }
        u += 1;
    }
}

#[test]
fn trimmed_takes_white_space_from_both_ends() {
    assert_eq!(trimmed(&chars("  Host: x \r\n")), &chars("Host: x")[..]);
    assert_eq!(trimmed(&chars("a b")), &chars("a b")[..]);
    assert_eq!(trimmed(&chars(" \t\r\n")), &chars("")[..]);
    assert_eq!(trimmed(&chars("")), &chars("")[..]);
}

#[test]
fn find_gives_the_first_index() {
    assert_eq!(find(&chars("a: b: c"), &chars(": ")), Some(1));
    assert_eq!(find(&chars("deflate, gzip"), &chars("gzip")), Some(9));
    assert_eq!(find(&chars("gzi"), &chars("gzip")), None);
    assert_eq!(find(&chars("a:b"), &chars(": ")), None);
    assert_eq!(find(&chars("abc"), &chars("")), Some(0));
    assert_eq!(find(&chars(""), &chars("")), Some(0));
    assert_eq!(find(&chars("aab"), &chars("ab")), Some(1));
}

#[test]
fn to_lowercase_changes_ascii_letters_only() {
    assert_eq!(to_lowercase(&chars("Content-Length")), "content-length");
    assert_eq!(to_lowercase(&chars("AZaz09@[`{")), "azaz09@[`{");
    assert_eq!(to_lowercase(&chars("ÄÖ")), "ÄÖ");
}

#[test]
fn parse_number_reads_digits() {
    assert_eq!(parse_number(&chars("0")), Some(0));
    assert_eq!(parse_number(&chars("5")), Some(5));
    assert_eq!(parse_number(&chars("0012")), Some(12));
    assert_eq!(parse_number(&chars("+42")), Some(42));
    assert_eq!(parse_number(&chars("1234567890")), Some(1234567890));
}

#[test]
fn parse_number_refuses_what_is_no_number() {
    assert_eq!(parse_number(&chars("")), None);
    assert_eq!(parse_number(&chars("+")), None);
    assert_eq!(parse_number(&chars("-1")), None);
    assert_eq!(parse_number(&chars("++1")), None);
    assert_eq!(parse_number(&chars("12a")), None);
    assert_eq!(parse_number(&chars(" 12")), None);
    assert_eq!(parse_number(&chars("1.5")), None);
}

#[test]
fn parse_number_holds_the_limit_of_usize() {
    let max = usize::MAX.to_string();
    assert_eq!(parse_number(&chars(&max)), Some(usize::MAX));
    let beyond = format!("{}0", max);
    assert_eq!(parse_number(&chars(&beyond)), None);
    let mut next = max.into_bytes();
    let last = next.len() - 1;
    next[last] += 1;
    let next = String::from_utf8(next).unwrap();
    assert_eq!(parse_number(&chars(&next)), None);
}

#[test]
fn parse_number_agrees_with_std() {
    for s in ["0", "7", "+7", "007", "", "+", "-", "-0", "9x", "18446744073709551615",
        "18446744073709551616", "99999999999999999999999"]
    {
        assert_eq!(parse_number(&chars(s)), s.parse::<usize>().ok());
    }
}

#[test]
fn decimal_string_writes_the_number() {
    assert_eq!(decimal_string(0), "0");
    assert_eq!(decimal_string(5), "5");
    assert_eq!(decimal_string(10), "10");
    assert_eq!(decimal_string(404), "404");
    assert_eq!(decimal_string(1234567890), "1234567890");
    assert_eq!(decimal_string(usize::MAX), usize::MAX.to_string());
}

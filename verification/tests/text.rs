use set_cookie::parse::{parse_inner, read_attribute, read_max_age, Attribute, Parsed};
use set_cookie::render::{digit_str, push_decimal, push_str};
use set_cookie::text::{
    digits_only, find_byte, range_eq, range_eq_ignore_case, saturating_decimal, slice, space_at,
    space_before, trim,
};
use set_cookie::{ParseError, SameSite, Timestamp};

fn ts(secs: i64, nanos: u32) -> Timestamp {
    Timestamp::new(secs, nanos).unwrap()
}

const SPACES: [char; 25] = [
    '\u{9}', '\u{a}', '\u{b}', '\u{c}', '\u{d}', ' ', '\u{85}', '\u{a0}', '\u{1680}', '\u{2000}',
    '\u{2001}', '\u{2002}', '\u{2003}', '\u{2004}', '\u{2005}', '\u{2006}', '\u{2007}',
    '\u{2008}', '\u{2009}', '\u{200a}', '\u{2028}', '\u{2029}', '\u{202f}', '\u{205f}',
    '\u{3000}',
];

fn trimmed(text: &str) -> &str {
    let (from, to) = trim(text.as_bytes(), 0, text.len());
    &text[from..to]
}

#[test]
fn find_byte_finds_the_first() {
    assert_eq!(find_byte(b"a=b=c", b'=', 0, 5), 1);
    assert_eq!(find_byte(b"a=b=c", b'=', 2, 5), 3);
    assert_eq!(find_byte(b"a=b=c", b'=', 4, 5), 5);
    assert_eq!(find_byte(b"a=b=c", b'=', 2, 3), 3);
    assert_eq!(find_byte(b"a=b=c", b';', 0, 5), 5);
    assert_eq!(find_byte(b"", b';', 0, 0), 0);
    assert_eq!(find_byte(b"=", b'=', 1, 1), 1);
}

#[test]
fn every_whitespace_character_is_trimmed() {
    for c in SPACES {
        assert!(c.is_whitespace());
        let text = format!("{c}x{c}");
        assert_eq!(trimmed(&text), "x", "{:?}", c);
        let bytes = text.as_bytes();
        assert_eq!(space_at(bytes, 0, bytes.len()), c.len_utf8());
        assert_eq!(space_before(bytes, 0, bytes.len()), c.len_utf8());
        assert_eq!(space_at(bytes, 0, c.len_utf8() - 1), 0);
        assert_eq!(space_before(bytes, bytes.len() - c.len_utf8() + 1, bytes.len()), 0);
    }
}

#[test]
fn trim_is_the_trim_of_strings() {
    let mut texts: Vec<String> = vec![
        String::new(),
        String::from("x"),
        String::from(" "),
        String::from("  a  b  "),
        String::from("\u{2003}\u{a0} \u{e9}t\u{e9} \u{3000}\u{1680}"),
        String::from("\u{200b}x\u{200b}"),
        String::from("\u{2060} x"),
        String::from("\u{e2}\u{80}x"),
        String::from("\u{c2}\u{a1} \u{c3}\u{a0}"),
        String::from("\u{1f600} \u{1f600}"),
        String::from("\u{180e}x\u{feff}"),
    ];
    for c in SPACES {
        texts.push(format!("{c}"));
        texts.push(format!("{c}{c}"));
        texts.push(format!("a{c}b"));
        texts.push(format!("{c} \u{e9}{c}\u{e9} {c}"));
    }
    for c in ['\u{84}', '\u{86}', '\u{9f}', '\u{a1}', '\u{167f}', '\u{1681}', '\u{1fff}', '\u{200b}', '\u{2027}', '\u{202a}', '\u{202e}', '\u{2030}', '\u{205e}', '\u{2060}', '\u{2fff}', '\u{3001}', '\u{1c}', '\u{1f}', '\u{8}', '\u{e}'] {
        assert!(!c.is_whitespace());
        texts.push(format!("{c}x{c}"));
        texts.push(format!(" {c} "));
    }
    for text in &texts {
        assert_eq!(trimmed(text), text.trim(), "{:?}", text);
    }
}

#[test]
fn trim_gives_offsets() {
    assert_eq!(trim(b"ab  cd  ef", 2, 8), (4, 6));
    assert_eq!(trim(b"ab  cd  ef", 0, 10), (0, 10));
    assert_eq!(trim(b"ab  cd  ef", 2, 4), (2, 2));
    assert_eq!(trim(b"ab  cd  ef", 3, 3), (3, 3));
    assert_eq!(trim(b"   ", 0, 3), (0, 0));
    assert_eq!(trim(b"   ", 1, 3), (1, 1));
    assert_eq!(trim("\u{2003}x".as_bytes(), 1, 4), (1, 4));
}

#[test]
fn ranges_are_compared() {
    assert!(range_eq(b"xxPathyy", 2, 6, b"Path"));
    assert!(!range_eq(b"xxPathyy", 2, 6, b"path"));
    assert!(!range_eq(b"xxPathyy", 2, 5, b"Path"));
    assert!(!range_eq(b"xxPathyy", 2, 7, b"Path"));
    assert!(range_eq(b"abc", 1, 1, b""));
    assert!(range_eq_ignore_case(b"xxSTRICTyy", 2, 8, b"strict"));
    assert!(range_eq_ignore_case(b"xxstrictyy", 2, 8, b"StRiCt"));
    assert!(!range_eq_ignore_case(b"xxstrictyy", 2, 7, b"strict"));
    assert!(!range_eq_ignore_case(b"[", 0, 1, b"{"));
    assert!(!range_eq_ignore_case(b"@", 0, 1, b"`"));
    assert!(range_eq_ignore_case(b"Z", 0, 1, b"z"));
    assert!(range_eq_ignore_case(b"A", 0, 1, b"a"));
    assert!(!range_eq_ignore_case("\u{c9}".as_bytes(), 0, 2, "\u{e9}".as_bytes()));
    assert_eq!(range_eq_ignore_case(b"lAx", 0, 3, b"LaX"), "lAx".eq_ignore_ascii_case("LaX"));
}

#[test]
fn digits_are_read() {
    assert!(digits_only(b"a0129b", 1, 5));
    assert!(!digits_only(b"a0129b", 0, 5));
    assert!(!digits_only(b"a0129b", 1, 6));
    assert!(!digits_only(b"/", 0, 1));
    assert!(!digits_only(b":", 0, 1));
    assert!(digits_only(b"", 0, 0));
    assert_eq!(saturating_decimal(b"x3600", 1, 5), 3600);
    assert_eq!(saturating_decimal(b"000", 0, 3), 0);
    assert_eq!(saturating_decimal(b"", 0, 0), 0);
    assert_eq!(saturating_decimal(b"18446744073709551615", 0, 20), u64::MAX);
    assert_eq!(saturating_decimal(b"18446744073709551614", 0, 20), u64::MAX - 1);
    assert_eq!(saturating_decimal(b"18446744073709551616", 0, 20), u64::MAX);
    assert_eq!(saturating_decimal(b"184467440737095516150", 0, 21), u64::MAX);
    assert_eq!(saturating_decimal(b"00018446744073709551615", 0, 23), u64::MAX);
    assert_eq!(saturating_decimal(b"0000000000000000000000042", 0, 25), 42);
    for text in ["0", "7", "10", "99", "1234567890", "18446744073709551615"] {
        assert_eq!(saturating_decimal(text.as_bytes(), 0, text.len()), text.parse::<u64>().unwrap());
    }
}

#[test]
fn max_age_values() {
    assert_eq!(read_max_age(b"3600", 0, 4), Some(3600));
    assert_eq!(read_max_age(b"-100", 0, 4), Some(0));
    assert_eq!(read_max_age(b"-", 0, 1), Some(0));
    assert_eq!(read_max_age(b"", 0, 0), None);
    assert_eq!(read_max_age(b"x7", 1, 1), None);
    assert_eq!(read_max_age(b"abc", 0, 3), None);
    assert_eq!(read_max_age(b"-1a", 0, 3), None);
    assert_eq!(read_max_age(b"1-", 0, 2), None);
    assert_eq!(read_max_age(b"99999999999999999999", 0, 20), Some(u64::MAX));
    assert_eq!(read_max_age(b"-99999999999999999999", 0, 21), Some(0));
}

#[test]
fn slice_gives_the_part() {
    let text = "a\u{e9}b\u{2003}c";
    assert_eq!(slice(text, 0, text.len()), text);
    assert_eq!(slice(text, 1, 3), "\u{e9}");
    assert_eq!(slice(text, 3, 7), "b\u{2003}");
    assert_eq!(slice(text, 8, 8), "");
    assert_eq!(slice(text, 0, 0), "");
}

#[test]
fn attributes_are_read() {
    let text = b"a=b; Domain = .example.com ; Secure";
    assert_eq!(read_attribute(text, 4, 27), Attribute::Domain(14, 26));
    assert_eq!(read_attribute(text, 28, 35), Attribute::Secure);
    assert_eq!(read_attribute(b" Path=/p", 0, 8), Attribute::Path(6, 8));
    assert_eq!(read_attribute(b" Path=", 0, 6), Attribute::Path(6, 6));
    assert_eq!(read_attribute(b" Path", 0, 5), Attribute::Ignored);
    assert_eq!(read_attribute(b"Expires= x ", 0, 11), Attribute::Expires(9, 10));
    assert_eq!(read_attribute(b"Max-Age=12", 0, 10), Attribute::MaxAge(12));
    assert_eq!(read_attribute(b"Max-Age=x", 0, 9), Attribute::Ignored);
    assert_eq!(read_attribute(b"HttpOnly=x=y", 0, 12), Attribute::HttpOnly);
    assert_eq!(read_attribute(b"SameSite=LAX", 0, 12), Attribute::SameSite(SameSite::Lax));
    assert_eq!(read_attribute(b"SameSite=x", 0, 10), Attribute::Ignored);
    assert_eq!(read_attribute(b"Foo=Bar", 0, 7), Attribute::Ignored);
    assert_eq!(read_attribute(b"", 0, 0), Attribute::Ignored);
    assert_eq!(read_attribute(b"=Secure", 0, 7), Attribute::Ignored);
    assert_eq!(read_attribute(b"Sec ure", 0, 7), Attribute::Ignored);
}

#[test]
fn attributes_are_applied() {
    let start = Parsed::new((0, 1), (2, 3));
    assert_eq!(start.name, (0, 1));
    assert_eq!(start.value, (2, 3));
    assert_eq!(start.apply(Attribute::Ignored, None), Ok(start));
    let at = ts(1, 2);
    assert_eq!(start.apply(Attribute::Expires(4, 5), Some(at)).unwrap().expires, Some(at));
    assert_eq!(start.apply(Attribute::Expires(4, 5), None), Err(ParseError::InvalidDate));
    assert_eq!(start.apply(Attribute::MaxAge(9), Some(at)).unwrap().max_age, Some(9));
    assert_eq!(start.apply(Attribute::MaxAge(9), Some(at)).unwrap().expires, None);
    assert_eq!(start.apply(Attribute::Domain(4, 5), None).unwrap().domain, Some((4, 5)));
    assert_eq!(start.apply(Attribute::Path(6, 7), None).unwrap().path, Some((6, 7)));
    assert_eq!(start.apply(Attribute::Secure, None).unwrap().secure, Some(true));
    assert_eq!(start.apply(Attribute::HttpOnly, None).unwrap().http_only, Some(true));
    let strict = start.apply(Attribute::SameSite(SameSite::Strict), None).unwrap();
    assert_eq!(strict.same_site, Some(SameSite::Strict));
    assert_eq!(strict.apply(Attribute::Secure, None).unwrap().same_site, Some(SameSite::Strict));
}

#[test]
fn parse_inner_gives_offsets() {
    let parsed = parse_inner(" a = b ; Path = /p ; Domain=d").unwrap();
    assert_eq!(parsed.name, (1, 2));
    assert_eq!(parsed.value, (5, 6));
    assert_eq!(parsed.path, Some((16, 18)));
    assert_eq!(parsed.domain, Some((28, 29)));
    assert_eq!(parsed.secure, None);
    let empty = parse_inner("a=  ; Path=").unwrap();
    assert_eq!(empty.value, (2, 2));
    assert_eq!(empty.path, Some((11, 11)));
    assert_eq!(parse_inner("a"), Err(ParseError::MissingPair));
    assert_eq!(parse_inner(" = "), Err(ParseError::EmptyName));
    assert_eq!(parse_inner("a=b; Expires=x"), Err(ParseError::InvalidDate));
}

#[test]
fn text_is_written() {
    let mut out = String::from("a");
    push_str(&mut out, "b\u{e9}");
    push_str(&mut out, "");
    assert_eq!(out, "ab\u{e9}");
    push_decimal(&mut out, 0);
    push_decimal(&mut out, 907);
    push_decimal(&mut out, u64::MAX);
    assert_eq!(out, "ab\u{e9}090718446744073709551615");
    for d in 0..10u64 {
        assert_eq!(digit_str(d), d.to_string());
    }
}

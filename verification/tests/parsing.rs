use set_cookie::{Cookie, Expiration, ParseError, SameSite, Timestamp};

fn ts(secs: i64, nanos: u32) -> Timestamp {
    Timestamp::new(secs, nanos).unwrap()
}

#[test]
fn cookie() {
    let cookie = "sessionId=abc123; Expires=Tue, 21 Oct 2025 07:28:00 GMT; Max-Age=3600; Domain=example.com; Path=/; Secure; HttpOnly; SameSite=Strict";
    let cookie = Cookie::try_from(cookie).unwrap();
    let cookie = "authToken=xyz789; Expires=Fri, 01 Jan 2027 12:00:00 GMT; Max-Age=7200; Domain=example.org; Path=/account; Secure; HttpOnly; SameSite=Lax";
    let cookie = Cookie::try_from(cookie).unwrap();
    println!("{cookie:#?}");
    println!("{}", cookie.to_string());
}

#[test]
fn end_to_end() {
    let text = "sessionId=abc123; Expires=Tue, 21 Oct 2025 07:28:00 GMT; Max-Age=3600; Domain=example.com; Path=/; Secure; HttpOnly; SameSite=Strict";
    let cookie = Cookie::parse(text).unwrap();
    assert_eq!(cookie.name(), "sessionId");
    assert_eq!(cookie.value(), "abc123");
    assert_eq!(cookie.name_value(), ("sessionId", "abc123"));
    assert_eq!(
        cookie.expires(),
        Some(Expiration::DateTime(ts(1_761_031_680, 0)))
    );
    assert_eq!(cookie.max_age(), Some(3600));
    assert_eq!(cookie.domain(), Some("example.com"));
    assert_eq!(cookie.path(), Some("/"));
    assert_eq!(cookie.secure(), Some(true));
    assert_eq!(cookie.http_only(), Some(true));
    assert_eq!(cookie.same_site(), Some(SameSite::Strict));
    assert_eq!(cookie.to_string(), text);
}

#[test]
fn missing_pair() {
    assert!(matches!(Cookie::parse("no pair here"), Err(ParseError::MissingPair)));
    assert!(matches!(Cookie::parse(""), Err(ParseError::MissingPair)));
    assert!(matches!(Cookie::parse("; Secure"), Err(ParseError::MissingPair)));
}

#[test]
fn empty_name() {
    assert!(matches!(Cookie::parse("=value"), Err(ParseError::EmptyName)));
    assert!(matches!(Cookie::parse("  \t =value; Secure"), Err(ParseError::EmptyName)));
    assert!(matches!(Cookie::parse("\u{3000}=value"), Err(ParseError::EmptyName)));
}

#[test]
fn invalid_date() {
    for date in [
        "Wed, 21 Oct 2025 07:28:00 GMT",
        "21 Oct 2025 07:28:00",
        "Thu, 01 Jan 2026 23:59:59 UTC",
        "Thu, 01 Jan 2026 24:59:59 GMT",
        "",
    ] {
        let text = format!("a=b; Expires={date}; Secure");
        assert!(matches!(Cookie::parse(&text), Err(ParseError::InvalidDate)), "{date}");
    }
}

#[test]
fn errors_come_in_order() {
    assert!(matches!(Cookie::parse("; Expires"), Err(ParseError::MissingPair)));
    assert!(matches!(Cookie::parse(" =x; Expires=never"), Err(ParseError::EmptyName)));
    let odd = Cookie::parse("; Expires=never").unwrap();
    assert_eq!(odd.name_value(), ("; Expires", "never"));
    assert!(matches!(
        Cookie::parse("a=b; Expires=never; Expires=Tue, 21 Oct 2025 07:28:00 GMT"),
        Err(ParseError::InvalidDate)
    ));
}

#[test]
fn name_and_value_are_trimmed() {
    let cookie = Cookie::parse("  name \t=  some value \r\n").unwrap();
    assert_eq!(cookie.name(), "name");
    assert_eq!(cookie.value(), "some value");
    assert_eq!(cookie.name_raw(), Some("name"));
    assert_eq!(cookie.value_raw(), Some("some value"));
    assert_eq!(cookie.expires(), None);
    assert_eq!(cookie.max_age(), None);
    assert_eq!(cookie.domain(), None);
    assert_eq!(cookie.path(), None);
    assert_eq!(cookie.secure(), None);
    assert_eq!(cookie.http_only(), None);
    assert_eq!(cookie.same_site(), None);
}

#[test]
fn wide_whitespace_is_trimmed() {
    let cookie = Cookie::parse("\u{2003}n\u{e9}\u{a0}=\u{3000}v\u{1680}\u{205f}; Path=\u{85}/p\u{2028}").unwrap();
    assert_eq!(cookie.name(), "n\u{e9}");
    assert_eq!(cookie.value(), "v");
    assert_eq!(cookie.path(), Some("/p"));
}

#[test]
fn value_may_hold_equals_signs() {
    let cookie = Cookie::parse("token=a=b==; Path=/").unwrap();
    assert_eq!(cookie.name(), "token");
    assert_eq!(cookie.value(), "a=b==");
    assert_eq!(cookie.path(), Some("/"));
}

#[test]
fn name_is_what_stands_before_the_first_equals_sign() {
    let cookie = Cookie::parse("a;b=c; Secure").unwrap();
    assert_eq!(cookie.name(), "a;b");
    assert_eq!(cookie.value(), "c");
    assert_eq!(cookie.secure(), Some(true));
}

#[test]
fn empty_value() {
    let cookie = Cookie::parse("name=").unwrap();
    assert_eq!(cookie.value(), "");
    let cookie = Cookie::parse("name=   ; Secure").unwrap();
    assert_eq!(cookie.value(), "");
    assert_eq!(cookie.value_raw(), Some(""));
    assert_eq!(cookie.secure(), Some(true));
}

#[test]
fn max_age_negative_is_zero() {
    let cookie = Cookie::parse("a=b; Max-Age=-100").unwrap();
    assert_eq!(cookie.max_age(), Some(0));
    let cookie = Cookie::parse("a=b; Max-Age=-").unwrap();
    assert_eq!(cookie.max_age(), Some(0));
}

#[test]
fn max_age_too_large_is_the_maximum() {
    let cookie = Cookie::parse("a=b; Max-Age=99999999999999999999").unwrap();
    assert_eq!(cookie.max_age(), Some(u64::MAX));
    let cookie = Cookie::parse("a=b; Max-Age=18446744073709551616").unwrap();
    assert_eq!(cookie.max_age(), Some(u64::MAX));
    let cookie = Cookie::parse("a=b; Max-Age=18446744073709551615").unwrap();
    assert_eq!(cookie.max_age(), Some(u64::MAX));
    let cookie = Cookie::parse("a=b; Max-Age=18446744073709551614").unwrap();
    assert_eq!(cookie.max_age(), Some(18446744073709551614));
}

#[test]
fn max_age_without_digits_is_passed_over() {
    let cookie = Cookie::parse("a=b; Max-Age=; Secure").unwrap();
    assert_eq!(cookie.max_age(), None);
    assert_eq!(cookie.secure(), Some(true));
    assert_eq!(Cookie::parse("a=b; Max-Age=   ").unwrap().max_age(), None);
    assert_eq!(Cookie::parse("a=b; Max-Age=7; Max-Age=").unwrap().max_age(), Some(7));
    assert_eq!(Cookie::parse("a=b; Max-Age=").unwrap().to_string(), "a=b");
}

#[test]
fn max_age_not_a_number_is_passed_over() {
    let cookie = Cookie::parse("a=b; Max-Age=abc; Secure").unwrap();
    assert_eq!(cookie.max_age(), None);
    assert_eq!(cookie.secure(), Some(true));
    for text in ["a=b; Max-Age=12x", "a=b; Max-Age=--1", "a=b; Max-Age=+1", "a=b; Max-Age=1 2", "a=b; Max-Age=\u{2212}100", "a=b; Max-Age"] {
        assert_eq!(Cookie::parse(text).unwrap().max_age(), None, "{text}");
    }
    let cookie = Cookie::parse("a=b; Max-Age=5; Max-Age=abc").unwrap();
    assert_eq!(cookie.max_age(), Some(5));
}

#[test]
fn max_age_digits() {
    assert_eq!(Cookie::parse("a=b; Max-Age=0").unwrap().max_age(), Some(0));
    assert_eq!(Cookie::parse("a=b; Max-Age=007").unwrap().max_age(), Some(7));
    assert_eq!(Cookie::parse("a=b; Max-Age = 3600 ").unwrap().max_age(), Some(3600));
    assert_eq!(Cookie::parse("a=b; Max-Age=1; Max-Age=2").unwrap().max_age(), Some(2));
}

#[test]
fn domain_with_leading_dot() {
    let cookie = Cookie::parse("a=b; Domain=.example.com").unwrap();
    assert_eq!(cookie.domain(), Some("example.com"));
    assert_eq!(cookie.domain_raw(), Some(".example.com"));
    let cookie = Cookie::parse("a=b; Domain=..example.com").unwrap();
    assert_eq!(cookie.domain(), Some(".example.com"));
    let cookie = Cookie::parse("a=b; Domain=.").unwrap();
    assert_eq!(cookie.domain(), Some(""));
    assert_eq!(cookie.domain_raw(), Some("."));
    let cookie = Cookie::parse("a=b; Domain=").unwrap();
    assert_eq!(cookie.domain(), Some(""));
    assert_eq!(cookie.domain_raw(), Some(""));
}

#[test]
fn unknown_attribute_is_ignored() {
    let with = Cookie::parse("a=b; Foo=Bar; Max-Age=1; Domain=d; Foo; Path=/p; Secure; =x; HttpOnly; SameSite=Lax; ;").unwrap();
    let without = Cookie::parse("a=b; Max-Age=1; Domain=d; Path=/p; Secure; HttpOnly; SameSite=Lax").unwrap();
    assert_eq!(with.name_value(), without.name_value());
    assert_eq!(with.max_age(), without.max_age());
    assert_eq!(with.domain(), without.domain());
    assert_eq!(with.path(), without.path());
    assert_eq!(with.secure(), without.secure());
    assert_eq!(with.http_only(), without.http_only());
    assert_eq!(with.same_site(), without.same_site());
    assert_eq!(with.to_string(), without.to_string());
}

#[test]
fn keys_are_matched_by_case() {
    let cookie = Cookie::parse("a=b; secure; HTTPONLY; domain=d; path=/; max-age=1; samesite=Lax; expires=never").unwrap();
    assert_eq!(cookie.secure(), None);
    assert_eq!(cookie.http_only(), None);
    assert_eq!(cookie.domain(), None);
    assert_eq!(cookie.path(), None);
    assert_eq!(cookie.max_age(), None);
    assert_eq!(cookie.same_site(), None);
    assert_eq!(cookie.expires(), None);
}

#[test]
fn flags_with_a_value_are_set() {
    let cookie = Cookie::parse("a=b; Secure=false; HttpOnly=0").unwrap();
    assert_eq!(cookie.secure(), Some(true));
    assert_eq!(cookie.http_only(), Some(true));
}

#[test]
fn attributes_without_a_value_are_ignored() {
    let cookie = Cookie::parse("a=b; Expires; Domain; Path; SameSite; Max-Age").unwrap();
    assert_eq!(cookie.expires(), None);
    assert_eq!(cookie.domain(), None);
    assert_eq!(cookie.path(), None);
    assert_eq!(cookie.same_site(), None);
    assert_eq!(cookie.max_age(), None);
}

#[test]
fn same_site_ignores_case() {
    assert_eq!(Cookie::parse("a=b; SameSite=STRICT").unwrap().same_site(), Some(SameSite::Strict));
    assert_eq!(Cookie::parse("a=b; SameSite=lAx").unwrap().same_site(), Some(SameSite::Lax));
    assert_eq!(Cookie::parse("a=b; SameSite=none").unwrap().same_site(), Some(SameSite::Unrestricted));
    assert_eq!(Cookie::parse("a=b; SameSite=bogus").unwrap().same_site(), None);
    assert_eq!(Cookie::parse("a=b; SameSite=Lax; SameSite=bogus").unwrap().same_site(), Some(SameSite::Lax));
    assert_eq!(Cookie::parse("a=b; SameSite=").unwrap().same_site(), None);
}

#[test]
fn same_site_read_strictly() {
    assert_eq!(SameSite::try_from("Strict"), Ok(SameSite::Strict));
    assert_eq!(SameSite::try_from("Lax"), Ok(SameSite::Lax));
    assert_eq!(SameSite::try_from("None"), Ok(SameSite::Unrestricted));
    assert_eq!(SameSite::try_from("strict"), Err(ParseError::InvalidSameSite));
    assert_eq!(SameSite::try_from(""), Err(ParseError::InvalidSameSite));
    assert_eq!(SameSite::default(), SameSite::Unrestricted);
    assert_eq!(SameSite::Unrestricted.as_str(), "None");
    assert_eq!(SameSite::Strict.as_str(), "Strict");
    assert_eq!(SameSite::Lax.as_str(), "Lax");
}

#[test]
fn later_attribute_replaces_earlier() {
    let cookie = Cookie::parse("a=b; Domain=one; Path=/1; Domain=two; Path=/2").unwrap();
    assert_eq!(cookie.domain(), Some("two"));
    assert_eq!(cookie.path(), Some("/2"));
}

#[test]
fn expires_in_each_format() {
    let want = Some(Expiration::DateTime(ts(1_761_031_680, 0)));
    for date in [
        "Tue, 21 Oct 2025 07:28:00 GMT",
        "Tuesday, 21-Oct-25 07:28:00 GMT",
        "Tue Oct 21 07:28:00 2025",
        "Tue, 21-Oct-2025 07:28:00 GMT",
    ] {
        let text = format!("a=b; Expires={date}");
        assert_eq!(Cookie::parse(&text).unwrap().expires(), want, "{date}");
    }
}

#[test]
fn round_trip_is_stable() {
    for text in [
        "a=b",
        " a = b ; Max-Age=-5;Domain= .example.com ;Path=/x; Secure=1 ; HttpOnly; SameSite=none; Foo=Bar",
        "sessionId=abc123; Expires=Tue, 21 Oct 2025 07:28:00 GMT; Max-Age=3600; Domain=example.com; Path=/; Secure; HttpOnly; SameSite=Strict",
        "k=; Max-Age=99999999999999999999; Domain=; Path=",
        "k=v; Max-Age=; Path=/",
        "k=v; Max-Age=-",
        "k=v=w; Expires=Tuesday, 21-Oct-25 07:28:00 GMT",
        "a;b=c",
    ] {
        let first = Cookie::parse(text).unwrap();
        let wire = first.to_string();
        let second = Cookie::parse(&wire).unwrap();
        assert_eq!(first.name(), second.name(), "{text}");
        assert_eq!(first.value(), second.value(), "{text}");
        assert_eq!(first.expires(), second.expires(), "{text}");
        assert_eq!(first.max_age(), second.max_age(), "{text}");
        assert_eq!(first.domain(), second.domain(), "{text}");
        assert_eq!(first.path(), second.path(), "{text}");
        assert_eq!(first.secure(), second.secure(), "{text}");
        assert_eq!(first.http_only(), second.http_only(), "{text}");
        assert_eq!(first.same_site(), second.same_site(), "{text}");
        assert_eq!(second.to_string(), wire, "{text}");
    }
}

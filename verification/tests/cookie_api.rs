use chrono::{DateTime, Days, Utc};
use set_cookie::cookie::{push_expires, strip_dot, TWENTY_YEARS};
use set_cookie::cookie_str::cow_str;
use set_cookie::expires::{MAX_SECONDS, MIN_SECONDS};
use set_cookie::{parse_cookie, Cookie, CookieBuilder, CookieStr, Expiration, SameSite, Timestamp};
use std::borrow::Cow;

fn ts(secs: i64, nanos: u32) -> Timestamp {
    Timestamp::new(secs, nanos).unwrap()
}

fn utc(at: Timestamp) -> DateTime<Utc> {
    DateTime::from_timestamp(at.secs(), at.nanos()).unwrap()
}

fn stamp(at: DateTime<Utc>) -> Timestamp {
    ts(at.timestamp(), at.timestamp_subsec_nanos())
}

fn instant_of(cookie: &Cookie) -> Timestamp {
    match cookie.expires() {
        Some(Expiration::DateTime(at)) => at,
        other => panic!("no instant: {other:?}"),
    }
}

#[test]
fn indexed_finds_a_part_of_the_haystack() {
    let haystack = "name=value; Path=/";
    assert_eq!(CookieStr::indexed(&haystack[5..10], haystack), Some(CookieStr::Indexed(5, 10)));
    assert_eq!(CookieStr::indexed(&haystack[0..4], haystack), Some(CookieStr::Indexed(0, 4)));
    assert_eq!(CookieStr::indexed(haystack, haystack), Some(CookieStr::Indexed(0, 18)));
    assert_eq!(CookieStr::indexed(&haystack[18..], haystack), Some(CookieStr::Indexed(18, 18)));
    assert_eq!(CookieStr::indexed(&haystack[3..3], haystack), Some(CookieStr::Indexed(3, 3)));
}

#[test]
fn indexed_rejects_equal_text_elsewhere() {
    let haystack = String::from("name=value");
    let copy = String::from("value");
    assert_eq!(&haystack[5..], copy.as_str());
    assert_eq!(CookieStr::indexed(&copy, &haystack), None);
    assert_eq!(CookieStr::indexed(&haystack, &haystack[5..]), None);
    assert_eq!(CookieStr::indexed(&haystack[2..7], &haystack[5..]), None);
    assert_eq!(CookieStr::indexed(&haystack[5..], &haystack[..7]), None);
}

#[test]
fn within_compares_addresses() {
    assert_eq!(CookieStr::within(105, 5, 100, 10), Some(CookieStr::Indexed(5, 10)));
    assert_eq!(CookieStr::within(100, 10, 100, 10), Some(CookieStr::Indexed(0, 10)));
    assert_eq!(CookieStr::within(110, 0, 100, 10), Some(CookieStr::Indexed(10, 10)));
    assert_eq!(CookieStr::within(99, 5, 100, 10), None);
    assert_eq!(CookieStr::within(106, 5, 100, 10), None);
    assert_eq!(CookieStr::within(111, 0, 100, 10), None);
    assert_eq!(CookieStr::within(usize::MAX, 1, usize::MAX - 1, 2), Some(CookieStr::Indexed(1, 2)));
    assert_eq!(CookieStr::within(usize::MAX, 2, usize::MAX - 1, 2), None);
    assert_eq!(CookieStr::within(5, usize::MAX, 0, usize::MAX), None);
    assert_eq!(CookieStr::within(0, 0, 0, 0), Some(CookieStr::Indexed(0, 0)));
}

#[test]
fn cookie_str_resolves() {
    let source: Cow<str> = Cow::Borrowed("name=v\u{e4}lue");
    let range = CookieStr::Indexed(5, 11);
    assert_eq!(range.as_str(Some(&source)), "v\u{e4}lue");
    assert_eq!(range.to_raw_str(&source), Some("v\u{e4}lue"));
    let copy: Cow<str> = Cow::Owned(String::from("name=v\u{e4}lue"));
    assert_eq!(range.as_str(Some(&copy)), "v\u{e4}lue");
    assert_eq!(range.to_raw_str(&copy), None);
    let held = CookieStr::Concrete(Cow::Borrowed("held"));
    assert_eq!(held.as_str(None), "held");
    assert_eq!(held.as_str(Some(&source)), "held");
    assert_eq!(held.to_raw_str(&source), None);
    assert_eq!(range.clone(), range);
    assert_eq!(held.clone(), held);
}

#[test]
fn cookie_str_into_owned_copies_the_text() {
    let source: Cow<str> = Cow::Borrowed("name=value");
    let owned = CookieStr::Indexed(5, 10).into_owned(Some(&source));
    assert_eq!(owned, CookieStr::Concrete(Cow::Owned(String::from("value"))));
    assert!(matches!(owned, CookieStr::Concrete(Cow::Owned(_))));
    let held = CookieStr::Concrete(Cow::Borrowed("held")).into_owned(None);
    assert!(matches!(held, CookieStr::Concrete(Cow::Owned(_))));
    assert_eq!(held.as_str(None), "held");
    let kept = CookieStr::Concrete(Cow::Owned(String::from("kept"))).into_owned(Some(&source));
    assert_eq!(kept.as_str(None), "kept");
}

#[test]
fn cow_str_gives_the_text() {
    assert_eq!(cow_str(&Cow::Borrowed("a")), "a");
    assert_eq!(cow_str(&Cow::Owned(String::from("b"))), "b");
}

#[test]
fn strip_dot_strips_one_dot() {
    assert_eq!(strip_dot(".example.com"), "example.com");
    assert_eq!(strip_dot("example.com"), "example.com");
    assert_eq!(strip_dot("..x"), ".x");
    assert_eq!(strip_dot("."), "");
    assert_eq!(strip_dot(""), "");
    assert_eq!(strip_dot("\u{e9}."), "\u{e9}.");
}

#[test]
fn setting_a_text_hides_its_raw_form() {
    let mut cookie = Cookie::parse("name=value; Domain=.example.com; Path=/p").unwrap();
    assert_eq!(cookie.name_raw(), Some("name"));
    assert_eq!(cookie.value_raw(), Some("value"));
    assert_eq!(cookie.domain_raw(), Some(".example.com"));
    assert_eq!(cookie.path_raw(), Some("/p"));

    cookie.set_domain(".example.org".into());
    assert_eq!(cookie.domain_raw(), None);
    assert_eq!(cookie.domain(), Some("example.org"));
    assert_eq!(cookie.name_raw(), Some("name"));
    assert_eq!(cookie.path_raw(), Some("/p"));

    cookie.set_name("other".into());
    assert_eq!(cookie.name_raw(), None);
    assert_eq!(cookie.name(), "other");

    cookie.set_value(String::from("v2").into());
    assert_eq!(cookie.value_raw(), None);
    assert_eq!(cookie.value(), "v2");

    cookie.set_path("/q".into());
    assert_eq!(cookie.path_raw(), None);
    assert_eq!(cookie.path(), Some("/q"));

    assert_eq!(cookie.to_string(), "other=v2; Domain=.example.org; Path=/q");
}

#[test]
fn unsetting_clears() {
    let mut cookie = Cookie::parse("a=b; Expires=Tue, 21 Oct 2025 07:28:00 GMT; Domain=d; Path=/p").unwrap();
    cookie.unset_domain().unset_path().unset_expiures();
    assert_eq!(cookie.domain(), None);
    assert_eq!(cookie.domain_raw(), None);
    assert_eq!(cookie.path(), None);
    assert_eq!(cookie.path_raw(), None);
    assert_eq!(cookie.expires(), None);
    assert_eq!(cookie.to_string(), "a=b");
}

#[test]
fn setters_chain() {
    let mut cookie = Cookie::parse("a=b").unwrap();
    cookie
        .set_max_age(Some(60))
        .set_secure(Some(true))
        .set_http_only(Some(false))
        .set_same_site(Some(SameSite::Unrestricted))
        .set_expires(Some(Expiration::Session));
    assert_eq!(cookie.max_age(), Some(60));
    assert_eq!(cookie.secure(), Some(true));
    assert_eq!(cookie.http_only(), Some(false));
    assert_eq!(cookie.same_site(), Some(SameSite::Unrestricted));
    assert_eq!(cookie.expires(), Some(Expiration::Session));
    assert_eq!(cookie.to_string(), "a=b; Max-Age=60; Secure; SameSite=None");
    cookie.set_max_age(None).set_secure(None).set_same_site(None).set_expires(None);
    assert_eq!(cookie.to_string(), "a=b");
}

#[test]
fn wire_form_has_a_fixed_order() {
    let cookie = Cookie::builder("id", "42")
        .same_site(SameSite::Lax)
        .http_only(true)
        .secure(true)
        .path("/x")
        .domain(".example.com")
        .max_age(0)
        .expires(Expiration::DateTime(ts(1_761_031_680, 0)))
        .build();
    assert_eq!(
        cookie.to_string(),
        "id=42; Expires=Tue, 21 Oct 2025 07:28:00 GMT; Max-Age=0; Domain=.example.com; Path=/x; Secure; HttpOnly; SameSite=Lax"
    );
}

#[test]
fn wire_form_leaves_out_what_is_not_set() {
    assert_eq!(Cookie::builder("a", "b").build().to_string(), "a=b");
    assert_eq!(Cookie::builder("", "").build().to_string(), "=");
    let session = Cookie::builder("a", "b").expires(Expiration::Session).build();
    assert_eq!(session.to_string(), "a=b");
    let flags = Cookie::builder("a", "b").secure(false).http_only(false).build();
    assert_eq!(flags.to_string(), "a=b");
    assert_eq!(flags.secure(), Some(false));
    let big = Cookie::builder("a", "b").max_age(u64::MAX).build();
    assert_eq!(big.to_string(), "a=b; Max-Age=18446744073709551615");
    let ten = Cookie::builder("a", "b").max_age(10).build();
    assert_eq!(ten.to_string(), "a=b; Max-Age=10");
}

#[test]
fn an_expiry_that_is_set_is_always_written() {
    assert_eq!(Timestamp::new(MAX_SECONDS + 1, 0), None);
    assert_eq!(Timestamp::new(MIN_SECONDS - 1, 0), None);
    let last = Cookie::builder("a", "b").expires(Expiration::DateTime(Timestamp::max())).build();
    assert_eq!(last.to_string(), "a=b; Expires=Mon, 31 Dec +262142 23:59:59 GMT");
    let first = Cookie::builder("a", "b").expires(Expiration::DateTime(ts(MIN_SECONDS, 0))).build();
    let written = DateTime::<Utc>::MIN_UTC.format("%a, %d %b %Y %H:%M:%S");
    assert_eq!(first.to_string(), format!("a=b; Expires={written} GMT"));
    assert!(first.to_string().ends_with(", 01 Jan -262143 00:00:00 GMT"));
    let early = Cookie::builder("a", "b").expires(Expiration::DateTime(ts(-1, 5))).max_age(1).build();
    assert_eq!(early.to_string(), "a=b; Expires=Wed, 31 Dec 1969 23:59:59 GMT; Max-Age=1");
}

#[test]
fn days_are_added_and_taken() {
    let now = ts(1_761_031_680, 500);
    assert_eq!(now.checked_add_days(0), Some(now));
    assert_eq!(now.checked_add_days(1), Some(ts(1_761_031_680 + 86_400, 500)));
    assert_eq!(now.checked_sub_days(1), Some(ts(1_761_031_680 - 86_400, 500)));
    assert_eq!(now.checked_add_days(u64::MAX), None);
    assert_eq!(now.checked_sub_days(u64::MAX), None);
    assert_eq!(Timestamp::max().checked_add_days(1), None);
    assert_eq!(Timestamp::max().checked_add_days(0), Some(Timestamp::max()));
    assert_eq!(ts(MIN_SECONDS, 0).checked_sub_days(1), None);
    assert!(Timestamp::now().secs() > 1_600_000_000);
}

#[test]
fn wire_form_writes_a_leap_second() {
    let leap = Expiration::DateTime(ts(1_498_867_199, 1_000_000_000));
    let cookie = Cookie::builder("a", "b").expires(leap).build();
    assert_eq!(cookie.to_string(), "a=b; Expires=Fri, 30 Jun 2017 23:59:60 GMT");
    assert_eq!(Cookie::parse(&cookie.to_string()).unwrap().expires(), Some(leap));
}

#[test]
fn push_expires_writes_the_attribute() {
    let mut out = String::from("a=b");
    push_expires(&mut out, "some day");
    assert_eq!(out, "a=b; Expires=some day GMT");
    push_expires(&mut out, "");
    assert_eq!(out, "a=b; Expires=some day GMT; Expires= GMT");
}

#[test]
fn builder_sets_each_attribute() {
    let cookie = CookieBuilder::new("n", "v").build();
    assert_eq!(cookie.name_value(), ("n", "v"));
    assert_eq!(cookie.name_raw(), None);
    assert_eq!(cookie.value_raw(), None);
    assert_eq!(cookie.expires(), None);
    assert_eq!(cookie.max_age(), None);
    assert_eq!(cookie.domain(), None);
    assert_eq!(cookie.path(), None);
    assert_eq!(cookie.secure(), None);
    assert_eq!(cookie.http_only(), None);
    assert_eq!(cookie.same_site(), None);

    let at = Expiration::DateTime(ts(7, 9));
    let cookie = CookieBuilder::new("n", "v")
        .expires(at)
        .max_age(5)
        .domain(".d")
        .path("/p")
        .secure(true)
        .http_only(false)
        .same_site(SameSite::Strict)
        .build();
    assert_eq!(cookie.expires(), Some(at));
    assert_eq!(cookie.max_age(), Some(5));
    assert_eq!(cookie.domain(), Some("d"));
    assert_eq!(cookie.domain_raw(), None);
    assert_eq!(cookie.path(), Some("/p"));
    assert_eq!(cookie.path_raw(), None);
    assert_eq!(cookie.secure(), Some(true));
    assert_eq!(cookie.http_only(), Some(false));
    assert_eq!(cookie.same_site(), Some(SameSite::Strict));
}

#[test]
fn builder_goes_on_from_a_cookie() {
    let parsed = Cookie::parse("a=b; Path=/p").unwrap();
    let cookie = CookieBuilder::from(parsed).secure(true).build();
    assert_eq!(cookie.name(), "a");
    assert_eq!(cookie.path_raw(), Some("/p"));
    assert_eq!(cookie.to_string(), "a=b; Path=/p; Secure");
}

#[test]
fn into_owned_keeps_the_texts() {
    let text = String::from(" name = value ; Domain=.example.com; Path=/p; Max-Age=3");
    let owned: Cookie<'static> = {
        let cookie = Cookie::parse(&text).unwrap();
        cookie.into_owned()
    };
    drop(text);
    assert_eq!(owned.name(), "name");
    assert_eq!(owned.value(), "value");
    assert_eq!(owned.domain(), Some("example.com"));
    assert_eq!(owned.path(), Some("/p"));
    assert_eq!(owned.max_age(), Some(3));
    assert_eq!(owned.name_raw(), None);
    assert_eq!(owned.value_raw(), None);
    assert_eq!(owned.domain_raw(), None);
    assert_eq!(owned.path_raw(), None);
    assert_eq!(owned.to_string(), "name=value; Max-Age=3; Domain=.example.com; Path=/p");
    let built = Cookie::builder("a", "b").domain("d").build().into_owned();
    assert_eq!(built.to_string(), "a=b; Domain=d");
}

#[test]
fn owned_source_gives_no_raw_text() {
    let cookie = parse_cookie(Cow::Owned(String::from("a=b; Domain=.d; Path=/"))).unwrap();
    assert_eq!(cookie.name(), "a");
    assert_eq!(cookie.domain(), Some("d"));
    assert_eq!(cookie.name_raw(), None);
    assert_eq!(cookie.value_raw(), None);
    assert_eq!(cookie.domain_raw(), None);
    assert_eq!(cookie.path_raw(), None);
    let borrowed = parse_cookie(Cow::Borrowed("a=b; Domain=.d")).unwrap();
    assert_eq!(borrowed.domain_raw(), Some(".d"));
}

#[test]
fn make_permanent_at_adds_twenty_years() {
    let now = ts(1_761_031_680, 500);
    let mut cookie = Cookie::parse("a=b; Path=/").unwrap();
    cookie.make_permanent_at(now);
    assert_eq!(TWENTY_YEARS, 60 * 60 * 24 * 365 * 20);
    assert_eq!(cookie.max_age(), Some(630_720_000));
    assert_eq!(instant_of(&cookie), ts(1_761_031_680 + 630_720_000, 500));
    assert_eq!(utc(instant_of(&cookie)), utc(now).checked_add_days(Days::new(7300)).unwrap());
    assert_eq!(cookie.value(), "b");
    assert_eq!(cookie.path_raw(), Some("/"));
}

#[test]
fn make_permanent_at_stops_at_the_last_instant() {
    let last = stamp(DateTime::<Utc>::MAX_UTC);
    for now in [
        ts(MAX_SECONDS, 0),
        ts(MAX_SECONDS - 7300 * 86_400 + 1, 0),
        ts(MAX_SECONDS - 7300 * 86_400, 1_000_000_000),
    ] {
        let mut cookie = Cookie::builder("a", "b").build();
        cookie.make_permanent_at(now);
        assert_eq!(instant_of(&cookie), last, "{now:?}");
        assert_eq!(cookie.max_age(), Some(630_720_000));
    }
    let mut cookie = Cookie::builder("a", "b").build();
    cookie.make_permanent_at(ts(MAX_SECONDS - 7300 * 86_400, 999_999_999));
    assert_eq!(instant_of(&cookie), last);
    let mut cookie = Cookie::builder("a", "b").build();
    cookie.make_permanent_at(ts(MAX_SECONDS - 7300 * 86_400 - 1, 7));
    assert_eq!(instant_of(&cookie), ts(MAX_SECONDS - 1, 7));
}

#[test]
fn make_removal_at_goes_back_one_year() {
    let now = ts(1_761_031_680, 500);
    let mut cookie = Cookie::parse("a=b; Path=/").unwrap();
    cookie.make_removal_at(now);
    assert_eq!(cookie.value(), "");
    assert_eq!(cookie.value_raw(), None);
    assert_eq!(cookie.max_age(), Some(0));
    assert_eq!(instant_of(&cookie), ts(1_761_031_680 - 31_536_000, 500));
    assert_eq!(utc(instant_of(&cookie)), utc(now).checked_sub_days(Days::new(365)).unwrap());
    assert_eq!(cookie.name(), "a");
    assert_eq!(cookie.to_string(), "a=; Expires=Mon, 21 Oct 2024 07:28:00 GMT; Max-Age=0; Path=/");

    let mut first = Cookie::builder("a", "b").build();
    first.make_removal_at(ts(MIN_SECONDS + 31_536_000, 0));
    assert_eq!(instant_of(&first), ts(MIN_SECONDS, 0));
}

#[test]
fn make_permanent_reads_the_clock() {
    let before = Utc::now();
    let mut cookie = Cookie::builder("a", "b").build();
    cookie.make_permanent();
    let after = Utc::now();
    let at = utc(instant_of(&cookie));
    assert!(before.checked_add_days(Days::new(7300)).unwrap() <= at);
    assert!(at <= after.checked_add_days(Days::new(7300)).unwrap());
    assert_eq!(cookie.max_age(), Some(630_720_000));
    assert_eq!(cookie.value(), "b");
}

#[test]
fn make_removal_reads_the_clock() {
    let before = Utc::now();
    let mut cookie = Cookie::builder("a", "b").build();
    cookie.make_removal().set_path("/".into());
    let after = Utc::now();
    let at = utc(instant_of(&cookie));
    assert!(before.checked_sub_days(Days::new(365)).unwrap() <= at);
    assert!(at <= after.checked_sub_days(Days::new(365)).unwrap());
    assert_eq!(cookie.max_age(), Some(0));
    assert_eq!(cookie.value(), "");
    assert_eq!(cookie.path(), Some("/"));
}

#[test]
fn try_from_reads_as_parse_does() {
    let text = "a=b; Max-Age=1";
    let cookie = Cookie::try_from(text).unwrap();
    assert_eq!(cookie.to_string(), Cookie::parse(text).unwrap().to_string());
    assert!(Cookie::try_from("nothing").is_err());
}

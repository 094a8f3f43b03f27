//! A cookie: its fields, their accessors and setters, and its wire form.
use crate::builder::CookieBuilder;
use crate::calendar::{format_utc, formatted_datetime};
use crate::cookie_str::{cow_bytes, text_bytes, CookieStr, Text};
use crate::date::RFC_1123;
use crate::expires::{Expiration, Timestamp};
use crate::parse::{parse_cookie, parse_spec, ParseError, Parsed};
use crate::render::{push_decimal, push_str, string_bytes};
use crate::same_site::SameSite;
use crate::text::{decimal_digits, lemma_ascii_boundary, slice};
use std::borrow::Cow;
use vstd::prelude::*;
use vstd::string::*;
use vstd::utf8::*;

verus! {

/// The seconds of twenty years of 365 days.
pub const TWENTY_YEARS: u64 = 630_720_000;

/// The days of twenty years of 365 days.
pub const TWENTY_YEARS_DAYS: u64 = 7_300;

/// The days of one year.
pub const ONE_YEAR_DAYS: u64 = 365;

/// The cookie string that a cookie was read from.
pub struct Source {
    /// Its bytes.
    pub bytes: Seq<u8>,
    /// Whether it is still the caller's text, and not a copy of it.
    pub borrowed: bool,
}

/// What a cookie holds.
pub struct CookieView {
    pub source: Option<Source>,
    pub name: Text,
    pub value: Text,
    pub expires: Option<Expiration>,
    pub max_age: Option<u64>,
    pub domain: Option<Text>,
    pub path: Option<Text>,
    pub secure: Option<bool>,
    pub http_only: Option<bool>,
    pub same_site: Option<SameSite>,
}

/// A domain without the one dot that may lead it.
pub open spec fn without_dot(domain: Seq<u8>) -> Seq<u8> {
    if domain.len() > 0 && domain[0] == 0x2E {
        domain.subrange(1, domain.len() as int)
    } else {
        domain
    }
}

/// The text of a field that may be absent.
pub open spec fn resolved(field: Option<Text>, source: Option<Seq<u8>>) -> Option<Seq<u8>> {
    match field {
        Some(text) => Some(text.resolve(source)),
        None => None,
    }
}

/// The text of a field as it stands in the source, if the field is a range of
/// a source that is still the caller's text.
pub open spec fn raw_text(field: Option<Text>, source: Option<Source>) -> Option<Seq<u8>> {
    match (field, source) {
        (Some(text), Some(s)) => text.raw(s.bytes, s.borrowed),
        _ => None,
    }
}

/// A field that may be absent, held by value.
pub open spec fn concrete(field: Option<Text>, source: Option<Seq<u8>>) -> Option<Text> {
    match field {
        Some(text) => Some(Text::Concrete(text.resolve(source))),
        None => None,
    }
}

impl CookieView {
    /// The bytes of the source, where there is one.
    pub open spec fn bytes(self) -> Option<Seq<u8>> {
        match self.source {
            Some(s) => Some(s.bytes),
            None => None,
        }
    }

    /// Every field that is a range has a source and lies in it between
    /// character boundaries.
    pub open spec fn wf(self) -> bool {
        &&& self.name.resolves_in(self.bytes())
        &&& self.value.resolves_in(self.bytes())
        &&& (self.domain matches Some(text) ==> text.resolves_in(self.bytes()))
        &&& (self.path matches Some(text) ==> text.resolves_in(self.bytes()))
    }

    /// Every field that is a range has a source and lies in it.
    pub open spec fn wf_ranges(self) -> bool {
        &&& self.name.lies_in(self.bytes())
        &&& self.value.lies_in(self.bytes())
        &&& (self.domain matches Some(text) ==> text.lies_in(self.bytes()))
        &&& (self.path matches Some(text) ==> text.lies_in(self.bytes()))
    }

    /// The name.
    pub open spec fn name_text(self) -> Seq<u8> {
        self.name.resolve(self.bytes())
    }

    /// The value.
    pub open spec fn value_text(self) -> Seq<u8> {
        self.value.resolve(self.bytes())
    }

    /// The domain as it was given, with its leading dot if it has one.
    pub open spec fn domain_given(self) -> Option<Seq<u8>> {
        resolved(self.domain, self.bytes())
    }

    /// The domain without the one dot that may lead it.
    pub open spec fn domain_text(self) -> Option<Seq<u8>> {
        match self.domain_given() {
            Some(domain) => Some(without_dot(domain)),
            None => None,
        }
    }

    /// The path.
    pub open spec fn path_text(self) -> Option<Seq<u8>> {
        resolved(self.path, self.bytes())
    }

    /// The name as it stands in the source.
    pub open spec fn name_raw(self) -> Option<Seq<u8>> {
        raw_text(Some(self.name), self.source)
    }

    /// The value as it stands in the source.
    pub open spec fn value_raw(self) -> Option<Seq<u8>> {
        raw_text(Some(self.value), self.source)
    }

    /// The domain as it stands in the source, with its leading dot if it has one.
    pub open spec fn domain_raw(self) -> Option<Seq<u8>> {
        raw_text(self.domain, self.source)
    }

    /// The path as it stands in the source.
    pub open spec fn path_raw(self) -> Option<Seq<u8>> {
        raw_text(self.path, self.source)
    }

    /// The cookie that the cookie string `bytes` holds, given what was read
    /// from it: every text is a range of the string, which is kept as the source.
    pub open spec fn of_parsed(bytes: Seq<u8>, borrowed: bool, p: Parsed) -> CookieView {
        CookieView {
            source: Some(Source { bytes, borrowed }),
            name: Text::Offset(p.name.0 as int, p.name.1 as int),
            value: Text::Offset(p.value.0 as int, p.value.1 as int),
            expires: match p.expires {
                Some(at) => Some(Expiration::DateTime(at)),
                None => None,
            },
            max_age: p.max_age,
            domain: match p.domain {
                Some((start, end)) => Some(Text::Offset(start as int, end as int)),
                None => None,
            },
            path: match p.path {
                Some((start, end)) => Some(Text::Offset(start as int, end as int)),
                None => None,
            },
            secure: p.secure,
            http_only: p.http_only,
            same_site: p.same_site,
        }
    }

    /// A cookie of a name and a value, without a source and without attributes.
    pub open spec fn of_pair(name: Seq<u8>, value: Seq<u8>) -> CookieView {
        CookieView {
            source: None,
            name: Text::Concrete(name),
            value: Text::Concrete(value),
            expires: None,
            max_age: None,
            domain: None,
            path: None,
            secure: None,
            http_only: None,
            same_site: None,
        }
    }

    /// The cookie with every text held by value and the source a copy.
    pub open spec fn owned(self) -> CookieView {
        CookieView {
            source: match self.source {
                Some(s) => Some(Source { bytes: s.bytes, borrowed: false }),
                None => None,
            },
            name: Text::Concrete(self.name_text()),
            value: Text::Concrete(self.value_text()),
            domain: concrete(self.domain, self.bytes()),
            path: concrete(self.path, self.bytes()),
            ..self
        }
    }

    /// After [`Cookie::make_permanent_at`]: twenty years of `Max-Age`, and
    /// expiry twenty years after `now`, or at the last instant if that one
    /// cannot be named.
    pub open spec fn permanent(self, now: Timestamp) -> CookieView {
        CookieView {
            max_age: Some(TWENTY_YEARS),
            expires: Some(
                Expiration::DateTime(
                    match now.plus_days(TWENTY_YEARS_DAYS) {
                        Some(later) => later,
                        None => Timestamp::last(),
                    },
                ),
            ),
            ..self
        }
    }

    /// After [`Cookie::make_removal_at`]: an empty value, a `Max-Age` of
    /// zero, and expiry one year before `now`.
    pub open spec fn removal(self, now: Timestamp) -> CookieView {
        CookieView {
            value: Text::Concrete(Seq::empty()),
            max_age: Some(0),
            expires: Some(Expiration::DateTime(now.minus_days(ONE_YEAR_DAYS).unwrap())),
            ..self
        }
    }

    /// `; Expires=` with the date and ` GMT`, for expiry at an instant;
    /// nothing otherwise.
    pub open spec fn expires_part(self) -> Seq<u8> {
        match self.expires {
            Some(Expiration::DateTime(at)) => expires_attribute(
                formatted_datetime(at.seconds(), at.subsec_nanos(), RFC_1123@),
            ),
            _ => Seq::empty(),
        }
    }

    /// `; Max-Age=` with the seconds, if set.
    pub open spec fn max_age_part(self) -> Seq<u8> {
        match self.max_age {
            Some(secs) => "; Max-Age=".spec_bytes() + decimal_digits(secs as nat),
            None => Seq::empty(),
        }
    }

    /// `; Domain=` with the domain as it was given, if set.
    pub open spec fn domain_part(self) -> Seq<u8> {
        match self.domain_given() {
            Some(domain) => "; Domain=".spec_bytes() + domain,
            None => Seq::empty(),
        }
    }

    /// `; Path=` with the path, if set.
    pub open spec fn path_part(self) -> Seq<u8> {
        match self.path_text() {
            Some(path) => "; Path=".spec_bytes() + path,
            None => Seq::empty(),
        }
    }

    /// `; Secure`, if set and true.
    pub open spec fn secure_part(self) -> Seq<u8> {
        if self.secure == Some(true) {
            "; Secure".spec_bytes()
        } else {
            Seq::empty()
        }
    }

    /// `; HttpOnly`, if set and true.
    pub open spec fn http_only_part(self) -> Seq<u8> {
        if self.http_only == Some(true) {
            "; HttpOnly".spec_bytes()
        } else {
            Seq::empty()
        }
    }

    /// `; SameSite=` with the value, if set.
    pub open spec fn same_site_part(self) -> Seq<u8> {
        match self.same_site {
            Some(same_site) => "; SameSite=".spec_bytes() + same_site.word(),
            None => Seq::empty(),
        }
    }

    /// The wire form: `name=value`, then each attribute that is set, in the
    /// order `Expires`, `Max-Age`, `Domain`, `Path`, `Secure`, `HttpOnly`,
    /// `SameSite`.
    pub open spec fn serialized(self) -> Seq<u8> {
        self.name_text() + "=".spec_bytes() + self.value_text() + self.expires_part()
            + self.max_age_part() + self.domain_part() + self.path_part() + self.secure_part()
            + self.http_only_part() + self.same_site_part()
    }
}

/// The `Expires` attribute for a date as it was written: `; Expires=`, the
/// date and ` GMT`.
pub open spec fn expires_attribute(date: Seq<char>) -> Seq<u8> {
    "; Expires=".spec_bytes() + encode_utf8(date) + " GMT".spec_bytes()
}

/// Whether two cookies hold the same texts and the same attributes.
pub open spec fn same_fields(c: CookieView, d: CookieView) -> bool {
    &&& d.name_text() == c.name_text()
    &&& d.value_text() == c.value_text()
    &&& d.expires == c.expires
    &&& d.max_age == c.max_age
    &&& d.domain_given() == c.domain_given()
    &&& d.domain_text() == c.domain_text()
    &&& d.path_text() == c.path_text()
    &&& d.secure == c.secure
    &&& d.http_only == c.http_only
    &&& d.same_site == c.same_site
}

/// What reading the cookie string `bytes` gives: the cookie it holds, or why
/// it holds none.
pub open spec fn parsed_cookie(bytes: Seq<u8>, borrowed: bool) -> Result<CookieView, ParseError> {
    match parse_spec(bytes) {
        Ok(p) => Ok(CookieView::of_parsed(bytes, borrowed, p)),
        Err(e) => Err(e),
    }
}

/// What [`Cookie::parse`] and [`parse_cookie`] return, as a view.
pub open spec fn outcome(r: Result<Cookie<'_>, ParseError>) -> Result<CookieView, ParseError> {
    match r {
        Ok(cookie) => Ok(cookie@),
        Err(e) => Err(e),
    }
}

/// The view of a source.
pub open spec fn source_view(source: Option<Cow<'_, str>>) -> Option<Source> {
    match source {
        Some(text) => Some(Source { bytes: cow_bytes(text), borrowed: text is Borrowed }),
        None => None,
    }
}

/// The view of a field that may be absent.
pub open spec fn field_view(field: Option<CookieStr<'_>>) -> Option<Text> {
    match field {
        Some(text) => Some(text@),
        None => None,
    }
}

/// Appends the `Expires` attribute for a date as it was written.
pub fn push_expires(out: &mut String, date: &str)
    ensures
        string_bytes(*final(out)) == string_bytes(*old(out)) + expires_attribute(date@),
{
    let ghost before = string_bytes(*out);
    push_str(out, "; Expires=");
    push_str(out, date);
    push_str(out, " GMT");
    assert(string_bytes(*out) =~= before + expires_attribute(date@));
}

/// `domain` without the one dot that may lead it.
pub fn strip_dot(domain: &str) -> (r: &str)
    ensures
        r.spec_bytes() == without_dot(domain.spec_bytes()),
{
    let bytes = domain.as_bytes();
    let len: usize = bytes.len();
    if len > 0 && bytes[0] == 0x2E {
        proof {
            encode_utf8_valid_utf8(domain@);
            lemma_ascii_boundary(bytes@, 0);
            is_char_boundary_start_end_of_seq(bytes@);
        }
        slice(domain, 1, len)
    } else {
        domain
    }
}

/// One cookie.
///
/// A cookie that was read from a cookie string keeps the string as its source,
/// and its texts are ranges of it until they are set anew. A cookie that was
/// built has no source, and holds its texts.
#[derive(Debug)]
pub struct Cookie<'a> {
    pub(crate) cookie_string: Option<Cow<'a, str>>,
    pub(crate) name: CookieStr<'a>,
    pub(crate) val: CookieStr<'a>,
    pub(crate) expires: Option<Expiration>,
    pub(crate) max_age: Option<u64>,
    pub(crate) domain: Option<CookieStr<'a>>,
    pub(crate) path: Option<CookieStr<'a>>,
    pub(crate) secure: Option<bool>,
    pub(crate) http_only: Option<bool>,
    pub(crate) same_site: Option<SameSite>,
}

impl<'a> View for Cookie<'a> {
    type V = CookieView;

    closed spec fn view(&self) -> CookieView {
        CookieView {
            source: source_view(self.cookie_string),
            name: self.name@,
            value: self.val@,
            expires: self.expires,
            max_age: self.max_age,
            domain: field_view(self.domain),
            path: field_view(self.path),
            secure: self.secure,
            http_only: self.http_only,
            same_site: self.same_site,
        }
    }
}

impl<'a> Cookie<'a> {
    /// The invariant of every cookie: it is well formed.
    #[verifier::type_invariant]
    pub closed spec fn inv(&self) -> bool {
        self@.wf()
    }

    /// What `read` gives, and so what `try_from` returns, is what
    /// `parsed_cookie` describes, and is put together from what the grammar
    /// finds.
    pub proof fn lemma_read(source: Cow<'a, str>)
        ensures
            outcome(Cookie::read(source)) == parsed_cookie(cow_bytes(source), source is Borrowed),
            Cookie::read(source) == match parse_spec(cow_bytes(source)) {
                Ok(p) => Ok::<Cookie<'a>, ParseError>(Cookie::assembled(source, p)),
                Err(e) => Err(e),
            },
    {
    }

    /// The cookie that `source` holds, given what was read from it.
    pub closed spec fn assembled(source: Cow<'a, str>, p: Parsed) -> Cookie<'a> {
        Cookie {
            cookie_string: Some(source),
            name: CookieStr::Indexed(p.name.0, p.name.1),
            val: CookieStr::Indexed(p.value.0, p.value.1),
            expires: match p.expires {
                Some(at) => Some(Expiration::DateTime(at)),
                None => None,
            },
            max_age: p.max_age,
            domain: match p.domain {
                Some((start, end)) => Some(CookieStr::Indexed(start, end)),
                None => None,
            },
            path: match p.path {
                Some((start, end)) => Some(CookieStr::Indexed(start, end)),
                None => None,
            },
            secure: p.secure,
            http_only: p.http_only,
            same_site: p.same_site,
        }
    }

    /// What reading `source` gives: the cookie that keeps it, or why it holds none.
    pub closed spec fn read(source: Cow<'a, str>) -> Result<Cookie<'a>, ParseError> {
        match parse_spec(cow_bytes(source)) {
            Ok(p) => Ok(Cookie::assembled(source, p)),
            Err(e) => Err(e),
        }
    }

    /// The cookie that `source` holds, given what was read from it.
    pub(crate) fn from_parsed(source: Cow<'a, str>, p: Parsed) -> (r: Cookie<'a>)
        requires
            p.placed_in(cow_bytes(source)),
        ensures
            r == Cookie::assembled(source, p),
            r@ == CookieView::of_parsed(cow_bytes(source), source is Borrowed, p),
    {
        Cookie {
            cookie_string: Some(source),
            name: CookieStr::Indexed(p.name.0, p.name.1),
            val: CookieStr::Indexed(p.value.0, p.value.1),
            expires: match p.expires {
                Some(at) => Some(Expiration::DateTime(at)),
                None => None,
            },
            max_age: p.max_age,
            domain: match p.domain {
                Some((start, end)) => Some(CookieStr::Indexed(start, end)),
                None => None,
            },
            path: match p.path {
                Some((start, end)) => Some(CookieStr::Indexed(start, end)),
                None => None,
            },
            secure: p.secure,
            http_only: p.http_only,
            same_site: p.same_site,
        }
    }

    /// A cookie of a name and a value, without attributes.
    pub(crate) fn of_pair(name: &'a str, val: &'a str) -> (r: Cookie<'a>)
        ensures
            r@ == CookieView::of_pair(name.spec_bytes(), val.spec_bytes()),
    {
        Cookie {
            cookie_string: None,
            name: CookieStr::Concrete(Cow::Borrowed(name)),
            val: CookieStr::Concrete(Cow::Borrowed(val)),
            expires: None,
            max_age: None,
            domain: None,
            path: None,
            secure: None,
            http_only: None,
            same_site: None,
        }
    }

    /// Reads a cookie from a cookie string, which it keeps as its source.
    ///
    /// Fails with `MissingPair` where the string has no `=`, with `EmptyName`
    /// where nothing but whitespace stands before the first `=`, and with
    /// `InvalidDate` at the first `Expires` value that names no date.
    pub fn parse(str: &'a str) -> (r: Result<Cookie<'a>, ParseError>)
        ensures
            outcome(r) == parsed_cookie(str.spec_bytes(), true),
            r == Cookie::read(Cow::Borrowed(str)),
    {
        parse_cookie(Cow::Borrowed(str))
    }

    /// Starts a cookie of a name and a value.
    pub fn builder(name: &'a str, val: &'a str) -> (r: CookieBuilder<'a>)
        ensures
            r@ == CookieView::of_pair(name.spec_bytes(), val.spec_bytes()),
    {
        CookieBuilder::new(name, val)
    }

    /// The name.
    pub fn name(&self) -> (r: &str)
        ensures
            r.spec_bytes() == self@.name_text(),
    {
        proof {
            use_type_invariant(self);
        }
        self.name.as_str(self.cookie_string.as_ref())
    }

    /// The name as it stands in the source: `None` once the name was set, and
    /// for a cookie whose source is absent or a copy.
    pub fn name_raw(&self) -> (r: Option<&str>)
        ensures
            text_bytes(r) == self@.name_raw(),
    {
        proof {
            use_type_invariant(self);
        }
        match self.cookie_string.as_ref() {
            Some(source) => self.name.to_raw_str(source),
            None => None,
        }
    }

    /// The value.
    pub fn value(&self) -> (r: &str)
        ensures
            r.spec_bytes() == self@.value_text(),
    {
        proof {
            use_type_invariant(self);
        }
        self.val.as_str(self.cookie_string.as_ref())
    }

    /// The value as it stands in the source: `None` once the value was set,
    /// and for a cookie whose source is absent or a copy.
    pub fn value_raw(&self) -> (r: Option<&str>)
        ensures
            text_bytes(r) == self@.value_raw(),
    {
        proof {
            use_type_invariant(self);
        }
        match self.cookie_string.as_ref() {
            Some(source) => self.val.to_raw_str(source),
            None => None,
        }
    }

    /// The name and the value.
    pub fn name_value(&self) -> (r: (&str, &str))
        ensures
            r.0.spec_bytes() == self@.name_text(),
            r.1.spec_bytes() == self@.value_text(),
    {
        (self.name(), self.value())
    }

    /// When the cookie expires, if set.
    pub fn expires(&self) -> (r: Option<Expiration>)
        ensures
            r == self@.expires,
    {
        self.expires
    }

    /// The seconds of `Max-Age`, if set.
    pub fn max_age(&self) -> (r: Option<u64>)
        ensures
            r == self@.max_age,
    {
        self.max_age
    }

    /// The domain, without the one dot that may lead it.
    pub fn domain(&self) -> (r: Option<&str>)
        ensures
            text_bytes(r) == self@.domain_text(),
    {
        proof {
            use_type_invariant(self);
        }
        match &self.domain {
            Some(domain) => Some(strip_dot(domain.as_str(self.cookie_string.as_ref()))),
            None => None,
        }
    }

    /// The domain as it stands in the source, with its leading dot if it has
    /// one: `None` once the domain was set, and for a cookie whose source is
    /// absent or a copy.
    pub fn domain_raw(&self) -> (r: Option<&str>)
        ensures
            text_bytes(r) == self@.domain_raw(),
    {
        proof {
            use_type_invariant(self);
        }
        match (self.domain.as_ref(), self.cookie_string.as_ref()) {
            (Some(domain), Some(source)) => domain.to_raw_str(source),
            _ => None,
        }
    }

    /// The path.
    pub fn path(&self) -> (r: Option<&str>)
        ensures
            text_bytes(r) == self@.path_text(),
    {
        proof {
            use_type_invariant(self);
        }
        match &self.path {
            Some(path) => Some(path.as_str(self.cookie_string.as_ref())),
            None => None,
        }
    }

    /// The path as it stands in the source: `None` once the path was set, and
    /// for a cookie whose source is absent or a copy.
    pub fn path_raw(&self) -> (r: Option<&str>)
        ensures
            text_bytes(r) == self@.path_raw(),
    {
        proof {
            use_type_invariant(self);
        }
        match (self.path.as_ref(), self.cookie_string.as_ref()) {
            (Some(path), Some(source)) => path.to_raw_str(source),
            _ => None,
        }
    }

    /// Whether `Secure` is set, and to what.
    pub fn secure(&self) -> (r: Option<bool>)
        ensures
            r == self@.secure,
    {
        self.secure
    }

    /// Whether `HttpOnly` is set, and to what.
    pub fn http_only(&self) -> (r: Option<bool>)
        ensures
            r == self@.http_only,
    {
        self.http_only
    }

    /// The value of `SameSite`, if set.
    pub fn same_site(&self) -> (r: Option<SameSite>)
        ensures
            r == self@.same_site,
    {
        self.same_site
    }

    /// Sets the name, which the cookie then holds by value.
    pub fn set_name(&mut self, name: Cow<'a, str>) -> (r: &mut Self)
        ensures
            r@ == (CookieView { name: Text::Concrete(cow_bytes(name)), ..old(self)@ }),
            *final(r) == *final(self),
    {
        proof {
            use_type_invariant(&*self);
        }
        self.name = CookieStr::Concrete(name);
        self
    }

    /// Sets the value, which the cookie then holds by value.
    pub fn set_value(&mut self, val: Cow<'a, str>) -> (r: &mut Self)
        ensures
            r@ == (CookieView { value: Text::Concrete(cow_bytes(val)), ..old(self)@ }),
            *final(r) == *final(self),
    {
        proof {
            use_type_invariant(&*self);
        }
        self.val = CookieStr::Concrete(val);
        self
    }

    /// Sets or clears the expiry.
    pub fn set_expires(&mut self, val: Option<Expiration>) -> (r: &mut Self)
        ensures
            r@ == (CookieView { expires: val, ..old(self)@ }),
            *final(r) == *final(self),
    {
        proof {
            use_type_invariant(&*self);
        }
        self.expires = val;
        self
    }

    /// Sets or clears the seconds of `Max-Age`.
    pub fn set_max_age(&mut self, val: Option<u64>) -> (r: &mut Self)
        ensures
            r@ == (CookieView { max_age: val, ..old(self)@ }),
            *final(r) == *final(self),
    {
        proof {
            use_type_invariant(&*self);
        }
        self.max_age = val;
        self
    }

    /// Clears the expiry.
    pub fn unset_expiures(&mut self) -> (r: &mut Self)
        ensures
            r@ == (CookieView { expires: None, ..old(self)@ }),
            *final(r) == *final(self),
    {
        proof {
            use_type_invariant(&*self);
        }
        self.expires = None;
        self
    }

    /// Sets the domain, which the cookie then holds by value.
    pub fn set_domain(&mut self, val: Cow<'a, str>) -> (r: &mut Self)
        ensures
            r@ == (CookieView { domain: Some(Text::Concrete(cow_bytes(val))), ..old(self)@ }),
            *final(r) == *final(self),
    {
        proof {
            use_type_invariant(&*self);
        }
        self.domain = Some(CookieStr::Concrete(val));
        self
    }

    /// Clears the domain.
    pub fn unset_domain(&mut self) -> (r: &mut Self)
        ensures
            r@ == (CookieView { domain: None, ..old(self)@ }),
            *final(r) == *final(self),
    {
        proof {
            use_type_invariant(&*self);
        }
        self.domain = None;
        self
    }

    /// Sets the path, which the cookie then holds by value.
    pub fn set_path(&mut self, val: Cow<'a, str>) -> (r: &mut Self)
        ensures
            r@ == (CookieView { path: Some(Text::Concrete(cow_bytes(val))), ..old(self)@ }),
            *final(r) == *final(self),
    {
        proof {
            use_type_invariant(&*self);
        }
        self.path = Some(CookieStr::Concrete(val));
        self
    }

    /// Clears the path.
    pub fn unset_path(&mut self) -> (r: &mut Self)
        ensures
            r@ == (CookieView { path: None, ..old(self)@ }),
            *final(r) == *final(self),
    {
        proof {
            use_type_invariant(&*self);
        }
        self.path = None;
        self
    }

    /// Sets or clears `Secure`.
    pub fn set_secure(&mut self, val: Option<bool>) -> (r: &mut Self)
        ensures
            r@ == (CookieView { secure: val, ..old(self)@ }),
            *final(r) == *final(self),
    {
        proof {
            use_type_invariant(&*self);
        }
        self.secure = val;
        self
    }

    /// Sets or clears `HttpOnly`.
    pub fn set_http_only(&mut self, val: Option<bool>) -> (r: &mut Self)
        ensures
            r@ == (CookieView { http_only: val, ..old(self)@ }),
            *final(r) == *final(self),
    {
        proof {
            use_type_invariant(&*self);
        }
        self.http_only = val;
        self
    }

    /// Sets or clears `SameSite`.
    pub fn set_same_site(&mut self, val: Option<SameSite>) -> (r: &mut Self)
        ensures
            r@ == (CookieView { same_site: val, ..old(self)@ }),
            *final(r) == *final(self),
    {
        proof {
            use_type_invariant(&*self);
        }
        self.same_site = val;
        self
    }

    /// Makes the cookie last: twenty years of `Max-Age`, and expiry twenty
    /// years after `now`, or at the last instant that can be named if that
    /// one cannot.
    pub fn make_permanent_at(&mut self, now: Timestamp) -> (r: &mut Self)
        ensures
            r@ == old(self)@.permanent(now),
            *final(r) == *final(self),
    {
        proof {
            use_type_invariant(&*self);
        }
        let later = match now.checked_add_days(TWENTY_YEARS_DAYS) {
            Some(later) => later,
            None => Timestamp::max(),
        };
        self.max_age = Some(TWENTY_YEARS);
        self.expires = Some(Expiration::DateTime(later));
        self
    }

    /// Makes the cookie last twenty years from the clock's reading.
    ///
    /// Whatever the clock reads, the cookie is as [`Cookie::make_permanent_at`]
    /// leaves it for an instant that can be named and is not before 1970.
    pub fn make_permanent(&mut self) -> (r: &mut Self)
        ensures
            exists|now: Timestamp|
                now.representable() && now.seconds() >= 0 && r@ == #[trigger] old(self)@.permanent(
                    now,
                ),
            *final(r) == *final(self),
    {
        let now = Timestamp::now();
        self.make_permanent_at(now)
    }

    /// Makes the cookie one that removes itself: an empty value, a `Max-Age`
    /// of zero, and expiry one year before `now`. The instant one year before
    /// `now` must be one that can be named: `now.checked_sub_days(365)` tells.
    pub fn make_removal_at(&mut self, now: Timestamp) -> (r: &mut Self)
        requires
            now.minus_days(ONE_YEAR_DAYS) is Some,
        ensures
            r@ == old(self)@.removal(now),
            *final(r) == *final(self),
    {
        proof {
            use_type_invariant(&*self);
            reveal_strlit("");
            assert(encode_utf8(""@) =~= Seq::<u8>::empty());
        }
        let earlier = now.checked_sub_days(ONE_YEAR_DAYS).unwrap();
        self.val = CookieStr::Concrete(Cow::Borrowed(""));
        self.max_age = Some(0);
        self.expires = Some(Expiration::DateTime(earlier));
        self
    }

    /// Makes the cookie one that removes itself, with expiry one year before
    /// the clock's reading.
    ///
    /// Whatever the clock reads, the cookie is as [`Cookie::make_removal_at`]
    /// leaves it for an instant that can be named and is not before 1970.
    pub fn make_removal(&mut self) -> (r: &mut Self)
        ensures
            exists|now: Timestamp|
                now.representable() && now.seconds() >= 0 && r@ == #[trigger] old(self)@.removal(
                    now,
                ),
            *final(r) == *final(self),
    {
        let now = Timestamp::now();
        self.make_removal_at(now)
    }

    /// The cookie with every text held by value and the source copied, so
    /// that it borrows nothing.
    pub fn into_owned(self) -> (r: Cookie<'static>)
        ensures
            r@ == self@.owned(),
    {
        proof {
            use_type_invariant(&self);
        }
        let Cookie {
            cookie_string,
            name,
            val,
            expires,
            max_age,
            domain,
            path,
            secure,
            http_only,
            same_site,
        } = self;
        let name = name.into_owned(cookie_string.as_ref());
        let val = val.into_owned(cookie_string.as_ref());
        let domain = match domain {
            Some(domain) => Some(domain.into_owned(cookie_string.as_ref())),
            None => None,
        };
        let path = match path {
            Some(path) => Some(path.into_owned(cookie_string.as_ref())),
            None => None,
        };
        let cookie_string: Option<Cow<'static, str>> = match cookie_string {
            Some(Cow::Borrowed(source)) => Some(Cow::Owned(source.to_owned())),
            Some(Cow::Owned(source)) => Some(Cow::Owned(source)),
            None => None,
        };
        Cookie {
            cookie_string,
            name,
            val,
            expires,
            max_age,
            domain,
            path,
            secure,
            http_only,
            same_site,
        }
    }

    /// Appends `name=value`.
    fn write_pair(&self, out: &mut String)
        ensures
            string_bytes(*final(out)) == string_bytes(*old(out)) + self@.name_text()
                + "=".spec_bytes() + self@.value_text(),
    {
        push_str(out, self.name());
        push_str(out, "=");
        push_str(out, self.value());
    }

    /// Appends the `Expires` attribute, if there is one to write.
    fn write_expires(&self, out: &mut String)
        ensures
            string_bytes(*final(out)) == string_bytes(*old(out)) + self@.expires_part(),
    {
        let ghost before = string_bytes(*out);
        if let Some(Expiration::DateTime(at)) = self.expires {
            let date = format_utc(at.secs(), at.nanos(), RFC_1123);
            push_expires(out, date.as_str());
        } else {
            assert(before + self@.expires_part() =~= before);
        }
    }

    /// Appends the `Max-Age` attribute, if set.
    fn write_max_age(&self, out: &mut String)
        ensures
            string_bytes(*final(out)) == string_bytes(*old(out)) + self@.max_age_part(),
    {
        let ghost before = string_bytes(*out);
        if let Some(secs) = self.max_age {
            push_str(out, "; Max-Age=");
            push_decimal(out, secs);
        }
        assert(string_bytes(*out) =~= before + self@.max_age_part());
    }

    /// Appends the `Domain` attribute, if set.
    fn write_domain(&self, out: &mut String)
        ensures
            string_bytes(*final(out)) == string_bytes(*old(out)) + self@.domain_part(),
    {
        proof {
            use_type_invariant(self);
        }
        let ghost before = string_bytes(*out);
        if let Some(domain) = self.domain.as_ref() {
            push_str(out, "; Domain=");
            push_str(out, domain.as_str(self.cookie_string.as_ref()));
        }
        assert(string_bytes(*out) =~= before + self@.domain_part());
    }

    /// Appends the `Path` attribute, if set.
    fn write_path(&self, out: &mut String)
        ensures
            string_bytes(*final(out)) == string_bytes(*old(out)) + self@.path_part(),
    {
        proof {
            use_type_invariant(self);
        }
        let ghost before = string_bytes(*out);
        if let Some(path) = self.path.as_ref() {
            push_str(out, "; Path=");
            push_str(out, path.as_str(self.cookie_string.as_ref()));
        }
        assert(string_bytes(*out) =~= before + self@.path_part());
    }

    /// Appends the `Secure`, `HttpOnly` and `SameSite` attributes that are set.
    fn write_flags(&self, out: &mut String)
        ensures
            string_bytes(*final(out)) == string_bytes(*old(out)) + self@.secure_part()
                + self@.http_only_part() + self@.same_site_part(),
    {
        let ghost before = string_bytes(*out);
        if let Some(true) = self.secure {
            push_str(out, "; Secure");
        }
        assert(string_bytes(*out) =~= before + self@.secure_part());
        let ghost before = string_bytes(*out);
        if let Some(true) = self.http_only {
            push_str(out, "; HttpOnly");
        }
        assert(string_bytes(*out) =~= before + self@.http_only_part());
        let ghost before = string_bytes(*out);
        if let Some(same_site) = self.same_site {
            push_str(out, "; SameSite=");
            push_str(out, same_site.as_str());
        }
        assert(string_bytes(*out) =~= before + self@.same_site_part());
    }

    /// The wire form of the cookie; see [`CookieView::serialized`].
    pub fn to_string(&self) -> (r: String)
        ensures
            string_bytes(r) == self@.serialized(),
    {
        let mut out = String::new();
        assert(string_bytes(out) =~= Seq::<u8>::empty());
        self.write_pair(&mut out);
        assert(string_bytes(out) =~= self@.name_text() + "=".spec_bytes() + self@.value_text());
        self.write_expires(&mut out);
        self.write_max_age(&mut out);
        self.write_domain(&mut out);
        self.write_path(&mut out);
        self.write_flags(&mut out);
        out
    }
}

impl<'a> TryFrom<&'a str> for Cookie<'a> {
    type Error = ParseError;

    /// Reads a cookie as [`Cookie::parse`] does.
    fn try_from(value: &'a str) -> (r: Result<Self, ParseError>) {
        Cookie::parse(value)
    }
}

impl<'a> vstd::std_specs::convert::TryFromSpecImpl<&'a str> for Cookie<'a> {
    /// `try_from` returns what `try_from_spec` says.
    open spec fn obeys_try_from_spec() -> bool {
        true
    }

    /// What reading `value` gives; [`Cookie::lemma_read`] says what that is.
    open spec fn try_from_spec(value: &'a str) -> Result<Self, ParseError> {
        Cookie::read(Cow::Borrowed(value))
    }
}

} // verus!

//! The attribute grammar of a cookie string.
//!
//! A cookie string is `name=value` followed by attributes, each introduced by
//! `;`. The grammar is lenient: an attribute that is unknown or malformed is
//! passed over, and only a missing `=`, an empty name and an unreadable
//! `Expires` date reject the string.
use crate::cookie::{outcome, parsed_cookie, Cookie};
use crate::cookie_str::{cow_bytes, cow_str};
use crate::date::{date_of, parse_date_with_all_formats};
use crate::expires::Timestamp;
use crate::same_site::SameSite;
use crate::text::{
    all_digits, decimal_value, digits_only, find_byte, first_at, lemma_ascii_boundary,
    lemma_first_at, lemma_first_at_moved, lemma_subrange_moved, lemma_trimmed_boundary,
    lemma_trimmed_moved, lemma_trimmed_range, range_eq, same_bytes, saturating_decimal, slice,
    trim, trimmed,
};
use std::borrow::Cow;
use vstd::prelude::*;
use vstd::string::*;
use vstd::utf8::*;

verus! {

/// Why a cookie string was rejected.
#[derive(Debug, Clone, Copy, PartialEq, Eq, Structural)]
pub enum ParseError {
    /// No `=` separates a name from a value.
    MissingPair,
    /// The name is empty once trimmed.
    EmptyName,
    /// Kept for a strict reading of `Max-Age`; the parser never returns it.
    InvalidMaxAge,
    /// A `SameSite` value other than `Strict`, `Lax` or `None`, read strictly.
    InvalidSameSite,
    /// No date format matched the value of `Expires`.
    InvalidDate,
    /// Kept for callers that decode bytes; the parser never returns it.
    Utf8Error,
}

/// What reading gives: a value, or why there is none.
pub type ParseResult<T> = Result<T, ParseError>;

/// The byte `=`.
pub const EQUALS: u8 = 0x3D;

/// The byte `;`.
pub const SEMICOLON: u8 = 0x3B;

/// The byte `-`.
pub const MINUS: u8 = 0x2D;

/// What one attribute of a cookie string says. Ranges are byte offsets into
/// the cookie string.
#[derive(Debug, Clone, Copy, PartialEq, Eq, Structural)]
pub enum Attribute {
    /// `Expires`, with the range of its value.
    Expires(usize, usize),
    /// `Max-Age`, with its seconds.
    MaxAge(u64),
    /// `Domain`, with the range of its value.
    Domain(usize, usize),
    /// `Path`, with the range of its value.
    Path(usize, usize),
    /// `Secure`.
    Secure,
    /// `HttpOnly`.
    HttpOnly,
    /// `SameSite`, with its value.
    SameSite(SameSite),
    /// An attribute that changes nothing: an unknown key, a key that lacks
    /// the value it needs, or a value that cannot be read.
    Ignored,
}

/// The seconds that the value of `Max-Age` gives. A value is digits, or `-`
/// and digits. After a `-` it gives zero, with or without digits. Without a
/// `-` it gives the number that its digits write, or `u64::MAX` where that
/// number is larger. Anything else gives none: a value that holds something
/// other than digits, and a value without a digit and without a `-`.
pub open spec fn max_age_of(v: Seq<u8>) -> Option<u64> {
    let negative = v.len() > 0 && v[0] == MINUS;
    let digits = if negative {
        v.subrange(1, v.len() as int)
    } else {
        v
    };
    if !all_digits(digits) {
        None
    } else if negative {
        Some(0)
    } else if digits.len() == 0 {
        None
    } else if decimal_value(digits) > u64::MAX {
        Some(u64::MAX)
    } else {
        Some(decimal_value(digits) as u64)
    }
}

/// The key of the attribute in `start..end` of `s`: what stands before the
/// first `=`, or all of it where there is none, trimmed.
pub open spec fn attribute_key(s: Seq<u8>, start: int, end: int) -> Seq<u8> {
    let eq = first_at(s, EQUALS, start, end);
    let key = trimmed(s, start, eq);
    s.subrange(key.0, key.1)
}

/// Whether `key` is one of the seven keys that the grammar knows.
pub open spec fn known_key(key: Seq<u8>) -> bool {
    ||| key == "Expires".spec_bytes()
    ||| key == "Max-Age".spec_bytes()
    ||| key == "Domain".spec_bytes()
    ||| key == "Path".spec_bytes()
    ||| key == "Secure".spec_bytes()
    ||| key == "HttpOnly".spec_bytes()
    ||| key == "SameSite".spec_bytes()
}

/// What the attribute in `start..end` of `s` says. The value is what stands
/// after the first `=`, trimmed. Keys are matched letter for letter. `Secure`
/// and `HttpOnly` count with or without a value; the other keys count only
/// with one.
pub open spec fn attribute_at(s: Seq<u8>, start: int, end: int) -> Attribute {
    let eq = first_at(s, EQUALS, start, end);
    let k = attribute_key(s, start, end);
    let val = trimmed(s, eq + 1, end);
    let v = s.subrange(val.0, val.1);
    if k == "Secure".spec_bytes() {
        Attribute::Secure
    } else if k == "HttpOnly".spec_bytes() {
        Attribute::HttpOnly
    } else if eq >= end {
        Attribute::Ignored
    } else if k == "Expires".spec_bytes() {
        Attribute::Expires(val.0 as usize, val.1 as usize)
    } else if k == "Max-Age".spec_bytes() {
        match max_age_of(v) {
            Some(secs) => Attribute::MaxAge(secs),
            None => Attribute::Ignored,
        }
    } else if k == "Domain".spec_bytes() {
        Attribute::Domain(val.0 as usize, val.1 as usize)
    } else if k == "Path".spec_bytes() {
        Attribute::Path(val.0 as usize, val.1 as usize)
    } else if k == "SameSite".spec_bytes() {
        match SameSite::lenient(v) {
            Some(same_site) => Attribute::SameSite(same_site),
            None => Attribute::Ignored,
        }
    } else {
        Attribute::Ignored
    }
}

/// What a cookie string holds: the ranges of its texts, as byte offsets into
/// it, and the values of its other attributes.
#[derive(Debug, Clone, Copy, PartialEq, Eq)]
pub struct Parsed {
    pub name: (usize, usize),
    pub value: (usize, usize),
    pub expires: Option<Timestamp>,
    pub max_age: Option<u64>,
    pub domain: Option<(usize, usize)>,
    pub path: Option<(usize, usize)>,
    pub secure: Option<bool>,
    pub http_only: Option<bool>,
    pub same_site: Option<SameSite>,
}

/// Whether `range` lies in `s` between character boundaries.
pub open spec fn placed(s: Seq<u8>, range: (usize, usize)) -> bool {
    &&& range.0 <= range.1 <= s.len()
    &&& is_char_boundary(s, range.0 as int)
    &&& is_char_boundary(s, range.1 as int)
}

impl Attribute {
    /// The attribute with the range that it carries, if any, moved by `by`.
    pub open spec fn moved(self, by: int) -> Attribute {
        match self {
            Attribute::Expires(a, b) => Attribute::Expires((a + by) as usize, (b + by) as usize),
            Attribute::Domain(a, b) => Attribute::Domain((a + by) as usize, (b + by) as usize),
            Attribute::Path(a, b) => Attribute::Path((a + by) as usize, (b + by) as usize),
            other => other,
        }
    }

    /// Whether the range that the attribute carries, if any, lies in `start..end`.
    pub open spec fn inside(self, start: int, end: int) -> bool {
        match self {
            Attribute::Expires(a, b) => start <= a <= b <= end,
            Attribute::Domain(a, b) => start <= a <= b <= end,
            Attribute::Path(a, b) => start <= a <= b <= end,
            _ => true,
        }
    }

    /// Whether the range that the attribute carries, if any, lies in `s`
    /// between character boundaries.
    pub open spec fn placed_in(self, s: Seq<u8>) -> bool {
        match self {
            Attribute::Expires(a, b) => placed(s, (a, b)),
            Attribute::Domain(a, b) => placed(s, (a, b)),
            Attribute::Path(a, b) => placed(s, (a, b)),
            _ => true,
        }
    }
}

impl Parsed {
    /// A name and a value without attributes.
    pub open spec fn start(name: (usize, usize), value: (usize, usize)) -> Parsed {
        Parsed {
            name,
            value,
            expires: None,
            max_age: None,
            domain: None,
            path: None,
            secure: None,
            http_only: None,
            same_site: None,
        }
    }

    /// The state after one more attribute. `date` is the instant that the
    /// value of an `Expires` attribute names, if it names one; an `Expires`
    /// attribute without it is an error. A later attribute replaces an
    /// earlier one of the same key.
    pub open spec fn with(self, attr: Attribute, date: Option<Timestamp>) -> Result<
        Parsed,
        ParseError,
    > {
        match attr {
            Attribute::Expires(_, _) => match date {
                Some(at) => Ok(Parsed { expires: Some(at), ..self }),
                None => Err(ParseError::InvalidDate),
            },
            Attribute::MaxAge(secs) => Ok(Parsed { max_age: Some(secs), ..self }),
            Attribute::Domain(a, b) => Ok(Parsed { domain: Some((a, b)), ..self }),
            Attribute::Path(a, b) => Ok(Parsed { path: Some((a, b)), ..self }),
            Attribute::Secure => Ok(Parsed { secure: Some(true), ..self }),
            Attribute::HttpOnly => Ok(Parsed { http_only: Some(true), ..self }),
            Attribute::SameSite(same_site) => Ok(Parsed { same_site: Some(same_site), ..self }),
            Attribute::Ignored => Ok(self),
        }
    }

    /// Whether every range lies in `s` between character boundaries.
    pub open spec fn placed_in(self, s: Seq<u8>) -> bool {
        &&& placed(s, self.name)
        &&& placed(s, self.value)
        &&& (self.domain matches Some(r) ==> placed(s, r))
        &&& (self.path matches Some(r) ==> placed(s, r))
    }

    /// A name and a value without attributes.
    pub fn new(name: (usize, usize), value: (usize, usize)) -> (r: Parsed)
        ensures
            r == Parsed::start(name, value),
    {
        Parsed {
            name,
            value,
            expires: None,
            max_age: None,
            domain: None,
            path: None,
            secure: None,
            http_only: None,
            same_site: None,
        }
    }

    /// The state after one more attribute; see [`Parsed::with`].
    pub fn apply(self, attr: Attribute, date: Option<Timestamp>) -> (r: Result<Parsed, ParseError>)
        ensures
            r == self.with(attr, date),
    {
        let mut next = self;
        match attr {
            Attribute::Expires(_, _) => match date {
                Some(at) => {
                    next.expires = Some(at);
                },
                None => {
                    return Err(ParseError::InvalidDate);
                },
            },
            Attribute::MaxAge(secs) => {
                next.max_age = Some(secs);
            },
            Attribute::Domain(a, b) => {
                next.domain = Some((a, b));
            },
            Attribute::Path(a, b) => {
                next.path = Some((a, b));
            },
            Attribute::Secure => {
                next.secure = Some(true);
            },
            Attribute::HttpOnly => {
                next.http_only = Some(true);
            },
            Attribute::SameSite(same_site) => {
                next.same_site = Some(same_site);
            },
            Attribute::Ignored => {},
        }
        Ok(next)
    }
}

/// The instant that an attribute needs: the date of an `Expires` value, if
/// it can be read.
pub open spec fn date_for(s: Seq<u8>, attr: Attribute) -> Option<Timestamp> {
    match attr {
        Attribute::Expires(a, b) => date_of(s.subrange(a as int, b as int)),
        _ => None,
    }
}

/// The result of reading the attributes that follow position `pos` of `s`,
/// one after each `;`, into `acc`. The first unreadable date ends the reading.
pub open spec fn attributes_from(s: Seq<u8>, pos: int, acc: Parsed) -> Result<Parsed, ParseError>
    decreases s.len() - pos,
    via attributes_from_decreases
{
    if pos >= s.len() {
        Ok(acc)
    } else {
        let end = first_at(s, SEMICOLON, pos + 1, s.len() as int);
        let attr = attribute_at(s, pos + 1, end);
        match acc.with(attr, date_for(s, attr)) {
            Ok(next) => attributes_from(s, end, next),
            Err(e) => Err(e),
        }
    }
}

/// Each attribute ends after it starts, so that reading ends.
#[via_fn]
proof fn attributes_from_decreases(s: Seq<u8>, pos: int, acc: Parsed) {
    if pos < s.len() {
        lemma_first_at(s, SEMICOLON, pos + 1, s.len() as int);
    }
}

/// What the cookie string `s` holds. The name stands before the first `=`
/// and the value between it and the next `;`, both trimmed; the attributes
/// follow.
pub open spec fn parse_spec(s: Seq<u8>) -> Result<Parsed, ParseError> {
    let len = s.len() as int;
    let eq = first_at(s, EQUALS, 0, len);
    let name = trimmed(s, 0, eq);
    let end = first_at(s, SEMICOLON, eq + 1, len);
    let value = trimmed(s, eq + 1, end);
    if eq >= len {
        Err(ParseError::MissingPair)
    } else if name.0 == name.1 {
        Err(ParseError::EmptyName)
    } else {
        attributes_from(
            s,
            end,
            Parsed::start((name.0 as usize, name.1 as usize), (value.0 as usize, value.1 as usize)),
        )
    }
}

/// The range that `trimmed` gives lies between character boundaries where
/// the range it was taken from does.
pub proof fn lemma_trimmed_placed(s: Seq<u8>, from: int, to: int)
    requires
        valid_utf8(s),
        s.len() <= usize::MAX,
        0 <= from <= to <= s.len(),
        is_char_boundary(s, from),
        is_char_boundary(s, to),
    ensures
        placed(s, (trimmed(s, from, to).0 as usize, trimmed(s, from, to).1 as usize)),
        from <= trimmed(s, from, to).0 <= trimmed(s, from, to).1 <= to,
{
    lemma_trimmed_range(s, from, to);
    lemma_trimmed_boundary(s, from, to);
}

/// The range that an attribute carries lies in the cookie string between
/// character boundaries.
pub proof fn lemma_attribute_placed(s: Seq<u8>, start: int, end: int)
    requires
        valid_utf8(s),
        s.len() <= usize::MAX,
        0 <= start <= end <= s.len(),
        is_char_boundary(s, end),
    ensures
        attribute_at(s, start, end).placed_in(s),
{
    lemma_first_at(s, EQUALS, start, end);
    let eq = first_at(s, EQUALS, start, end);
    if eq < end {
        lemma_ascii_boundary(s, eq);
        lemma_trimmed_placed(s, eq + 1, end);
    }
}

/// The range that an attribute carries lies in the range of the attribute.
pub proof fn lemma_attribute_inside(s: Seq<u8>, start: int, end: int)
    requires
        s.len() <= usize::MAX,
        0 <= start <= end <= s.len(),
    ensures
        attribute_at(s, start, end).inside(start, end),
{
    lemma_first_at(s, EQUALS, start, end);
    let eq = first_at(s, EQUALS, start, end);
    if eq < end {
        lemma_trimmed_range(s, eq + 1, end);
    }
}

/// An attribute is read from the bytes in its range alone: the same bytes
/// elsewhere give the same attribute, with its range moved, and the same date.
pub proof fn lemma_attribute_moved(s: Seq<u8>, t: Seq<u8>, start: int, end: int, by: int)
    requires
        s.len() <= usize::MAX,
        t.len() <= usize::MAX,
        0 <= start <= end <= s.len(),
        0 <= start + by,
        end + by <= t.len(),
        same_bytes(s, t, start, end, by),
    ensures
        attribute_key(t, start + by, end + by) == attribute_key(s, start, end),
        attribute_at(t, start + by, end + by) == attribute_at(s, start, end).moved(by),
        date_for(t, attribute_at(t, start + by, end + by)) == date_for(
            s,
            attribute_at(s, start, end),
        ),
{
    lemma_first_at(s, EQUALS, start, end);
    lemma_first_at_moved(s, t, EQUALS, start, end, by);
    let eq = first_at(s, EQUALS, start, end);
    assert(same_bytes(s, t, start, eq, by));
    lemma_trimmed_moved(s, t, start, eq, by);
    lemma_trimmed_range(s, start, eq);
    let key = trimmed(s, start, eq);
    lemma_subrange_moved(s, t, start, end, by, key.0, key.1);
    if eq < end {
        assert(same_bytes(s, t, eq + 1, end, by));
        lemma_trimmed_moved(s, t, eq + 1, end, by);
        lemma_trimmed_range(s, eq + 1, end);
        let val = trimmed(s, eq + 1, end);
        lemma_subrange_moved(s, t, start, end, by, val.0, val.1);
    }
}

/// The seconds that the `Max-Age` value in `from..to` gives; see [`max_age_of`].
pub fn read_max_age(bytes: &[u8], from: usize, to: usize) -> (r: Option<u64>)
    requires
        from <= to <= bytes@.len(),
    ensures
        r == max_age_of(bytes@.subrange(from as int, to as int)),
{
    let ghost v = bytes@.subrange(from as int, to as int);
    let negative = from < to && bytes[from] == MINUS;
    let first: usize = if negative {
        from + 1
    } else {
        from
    };
    proof {
        if negative {
            assert(v.subrange(1, v.len() as int) =~= bytes@.subrange(first as int, to as int));
        }
    }
    if !digits_only(bytes, first, to) {
        None
    } else if negative {
        Some(0)
    } else if first == to {
        None
    } else {
        Some(saturating_decimal(bytes, first, to))
    }
}

/// What the attribute in `start..end` says; see [`attribute_at`].
pub fn read_attribute(bytes: &[u8], start: usize, end: usize) -> (attr: Attribute)
    requires
        start <= end <= bytes@.len(),
    ensures
        attr == attribute_at(bytes@, start as int, end as int),
{
    let eq = find_byte(bytes, EQUALS, start, end);
    let key = trim(bytes, start, eq);
    if range_eq(bytes, key.0, key.1, "Secure".as_bytes()) {
        return Attribute::Secure;
    }
    if range_eq(bytes, key.0, key.1, "HttpOnly".as_bytes()) {
        return Attribute::HttpOnly;
    }
    if eq >= end {
        return Attribute::Ignored;
    }
    let val = trim(bytes, eq + 1, end);
    if range_eq(bytes, key.0, key.1, "Expires".as_bytes()) {
        Attribute::Expires(val.0, val.1)
    } else if range_eq(bytes, key.0, key.1, "Max-Age".as_bytes()) {
        match read_max_age(bytes, val.0, val.1) {
            Some(secs) => Attribute::MaxAge(secs),
            None => Attribute::Ignored,
        }
    } else if range_eq(bytes, key.0, key.1, "Domain".as_bytes()) {
        Attribute::Domain(val.0, val.1)
    } else if range_eq(bytes, key.0, key.1, "Path".as_bytes()) {
        Attribute::Path(val.0, val.1)
    } else if range_eq(bytes, key.0, key.1, "SameSite".as_bytes()) {
        match SameSite::from_range(bytes, val.0, val.1) {
            Some(same_site) => Attribute::SameSite(same_site),
            None => Attribute::Ignored,
        }
    } else {
        Attribute::Ignored
    }
}

/// Reads what the cookie string `s` holds.
///
/// Fails with `MissingPair` where `s` has no `=`, with `EmptyName` where
/// nothing but whitespace stands before the first `=`, and with `InvalidDate`
/// at the first `Expires` value that names no date.
pub fn parse_inner(s: &str) -> (r: Result<Parsed, ParseError>)
    ensures
        r == parse_spec(s.spec_bytes()),
        r matches Ok(p) ==> p.placed_in(s.spec_bytes()),
{
    let bytes = s.as_bytes();
    let len: usize = bytes.len();
    proof {
        encode_utf8_valid_utf8(s@);
        is_char_boundary_start_end_of_seq(bytes@);
    }
    let eq = find_byte(bytes, EQUALS, 0, len);
    if eq >= len {
        return Err(ParseError::MissingPair);
    }
    let name = trim(bytes, 0, eq);
    if name.0 == name.1 {
        return Err(ParseError::EmptyName);
    }
    let mut pos: usize = find_byte(bytes, SEMICOLON, eq + 1, len);
    let value = trim(bytes, eq + 1, pos);
    proof {
        lemma_first_at(bytes@, EQUALS, 0, len as int);
        lemma_first_at(bytes@, SEMICOLON, eq + 1, len as int);
        lemma_ascii_boundary(bytes@, eq as int);
        if pos < len {
            lemma_ascii_boundary(bytes@, pos as int);
        }
        lemma_trimmed_placed(bytes@, 0, eq as int);
        lemma_trimmed_placed(bytes@, eq + 1, pos as int);
    }
    let mut acc = Parsed::new(name, value);
    while pos < len
        invariant
            bytes@ == s.spec_bytes(),
            valid_utf8(bytes@),
            len == bytes@.len(),
            pos <= len,
            pos < len ==> bytes@[pos as int] == SEMICOLON,
            is_char_boundary(bytes@, len as int),
            acc.placed_in(bytes@),
            parse_spec(bytes@) == attributes_from(bytes@, pos as int, acc),
        decreases len - pos,
    {
        let end = find_byte(bytes, SEMICOLON, pos + 1, len);
        let attr = read_attribute(bytes, pos + 1, end);
        proof {
            lemma_first_at(bytes@, SEMICOLON, pos + 1, len as int);
            if end < len {
                lemma_ascii_boundary(bytes@, end as int);
            }
            lemma_attribute_placed(bytes@, pos + 1, end as int);
        }
        let date = match attr {
            Attribute::Expires(a, b) => {
                match parse_date_with_all_formats(slice(s, a, b)) {
                    Ok(at) => Some(at),
                    Err(_) => None,
                }
            },
            _ => None,
        };
        match acc.apply(attr, date) {
            Ok(next) => {
                acc = next;
            },
            Err(e) => {
                return Err(e);
            },
        }
        pos = end;
    }
    Ok(acc)
}

/// Reads a cookie from a cookie string, borrowed or owned, which the cookie
/// keeps as its source.
///
/// Fails with `MissingPair` where the string has no `=`, with `EmptyName`
/// where nothing but whitespace stands before the first `=`, and with
/// `InvalidDate` at the first `Expires` value that names no date.
pub fn parse_cookie<'a>(s: Cow<'a, str>) -> (r: ParseResult<Cookie<'a>>)
    ensures
        outcome(r) == parsed_cookie(cow_bytes(s), s is Borrowed),
        r == Cookie::read(s),
{
    proof {
        Cookie::lemma_read(s);
    }
    match parse_inner(cow_str(&s)) {
        Ok(p) => Ok(Cookie::from_parsed(s, p)),
        Err(e) => Err(e),
    }
}

} // verus!

//! Reading a cookie back from its wire form.
use crate::calendar::formatted_datetime;
use crate::cookie::{expires_attribute, parsed_cookie, same_fields, CookieView};
use crate::date::{date_of, RFC_1123};
use crate::expires::{Expiration, Timestamp};
use crate::parse::{
    attribute_at, attribute_key, attributes_from, date_for, lemma_attribute_moved, max_age_of,
    parse_spec, Attribute, ParseError, Parsed, EQUALS, SEMICOLON,
};
use crate::same_site::SameSite;
use crate::text::{
    all_digits, decimal_digits, first_at, is_trimmed, lemma_decimal_round_trip, lemma_first_at,
    lemma_first_at_is, lemma_subrange_moved, lemma_trimmed_is_trimmed, lemma_trimmed_of_trimmed,
    same_bytes, skip_spaces, skip_spaces_back, space_len_at, space_len_before, trimmed,
};
use crate::words::{
    is_plain, lead, lemma_introductions, lemma_keys, lemma_keys_differ, lemma_same_site_words,
    SPACE,
};
use vstd::prelude::*;
use vstd::string::*;
use vstd::utf8::*;

verus! {

/// Whether `part` is empty, or is `;` followed by bytes other than `;`.
pub open spec fn is_part(part: Seq<u8>) -> bool {
    part.len() > 0 ==> part[0] == SEMICOLON && forall|i: int|
        1 <= i < part.len() ==> part[i] != SEMICOLON
}

/// Whether `rest` is empty or starts with `;`.
pub open spec fn starts_anew(rest: Seq<u8>) -> bool {
    rest.len() > 0 ==> rest[0] == SEMICOLON
}

/// Whether `text` is trimmed and holds no `;`.
pub open spec fn is_tidy(text: Seq<u8>) -> bool {
    is_trimmed(text) && forall|i: int| 0 <= i < text.len() ==> text[i] != SEMICOLON
}

/// Whether `name` is not empty, trimmed, and holds no `=`.
pub open spec fn is_tidy_name(name: Seq<u8>) -> bool {
    name.len() > 0 && is_trimmed(name) && forall|i: int| 0 <= i < name.len() ==> name[i] != EQUALS
}

/// Whether the wire form of a cookie says all that the cookie holds: its
/// texts are as a cookie string can give them, and no flag is set to false.
pub open spec fn is_tidy_cookie(c: CookieView) -> bool {
    &&& is_tidy_name(c.name_text())
    &&& is_tidy(c.value_text())
    &&& (c.domain_given() matches Some(domain) ==> is_tidy(domain))
    &&& (c.path_text() matches Some(path) ==> is_tidy(path))
    &&& c.secure != Some(false)
    &&& c.http_only != Some(false)
}

/// What is written for the expiry at `at`: the date and ` GMT`.
pub open spec fn written_date(at: Timestamp) -> Seq<u8> {
    encode_utf8(formatted_datetime(at.seconds(), at.subsec_nanos(), RFC_1123@))
        + " GMT".spec_bytes()
}

/// The `Expires` attribute is `; Expires=` and what is written for the expiry.
proof fn lemma_expires_attribute(at: Timestamp)
    ensures
        expires_attribute(formatted_datetime(at.seconds(), at.subsec_nanos(), RFC_1123@))
            == "; Expires=".spec_bytes() + written_date(at),
{
    let date = formatted_datetime(at.seconds(), at.subsec_nanos(), RFC_1123@);
    assert("; Expires=".spec_bytes() + encode_utf8(date) + " GMT".spec_bytes()
        =~= "; Expires=".spec_bytes() + (encode_utf8(date) + " GMT".spec_bytes()));
}

/// Whether the expiry of a cookie, if it has one, is read back from what is
/// written for it: it is an instant, and what is written for it is tidy and
/// names that instant.
pub open spec fn date_reads_back(c: CookieView) -> bool {
    match c.expires {
        Some(Expiration::DateTime(at)) => is_tidy(written_date(at)) && date_of(written_date(at))
            == Some(at),
        Some(Expiration::Session) => false,
        None => true,
    }
}

/// The range of `text` where it stands from `at` on.
pub open spec fn value_range(at: int, text: Seq<u8>) -> (usize, usize) {
    (at as usize, (at + text.len()) as usize)
}

/// Whether `text` stands in `w` from `at` on.
pub open spec fn stands_at(w: Seq<u8>, at: int, text: Seq<u8>) -> bool {
    at + text.len() <= w.len() && w.subrange(at, at + text.len()) == text
}

/// One part of a wire form is read as one attribute: the one that the part
/// holds, with its range moved to where the part stands.
proof fn lemma_step(w: Seq<u8>, pos: int, part: Seq<u8>, rest: Seq<u8>, acc: Parsed)
    requires
        w.len() <= usize::MAX,
        0 <= pos <= w.len(),
        w.subrange(pos, w.len() as int) == part + rest,
        is_part(part),
        starts_anew(rest),
    ensures
        pos + part.len() + rest.len() == w.len(),
        w.subrange(pos + part.len(), w.len() as int) == rest,
        same_bytes(part, w, 0, part.len() as int, pos),
        part.len() > 0 ==> attributes_from(w, pos, acc) == (match acc.with(
            attribute_at(part, 1, part.len() as int).moved(pos),
            date_for(part, attribute_at(part, 1, part.len() as int)),
        ) {
            Ok(next) => attributes_from(w, pos + part.len(), next),
            Err(e) => Err(e),
        }),
{
    let n = part.len() as int;
    let len = w.len() as int;
    let tail = w.subrange(pos, len);
    assert(tail.len() == n + rest.len());
    assert forall|i: int| 0 <= i < n implies part[i] == #[trigger] w[i + pos] by {
        assert(tail[i] == w[pos + i]);
        assert((part + rest)[i] == part[i]);
    }
    assert(w.subrange(pos + n, len) =~= rest) by {
        let after = w.subrange(pos + n, len);
        assert forall|i: int| 0 <= i < rest.len() implies after[i] == rest[i] by {
            assert(tail[n + i] == w[pos + n + i]);
            assert((part + rest)[n + i] == rest[i]);
        }
    }
    if n > 0 {
        if pos + n < len {
            assert(tail[n] == w[pos + n]);
            assert((part + rest)[n] == rest[0]);
        }
        assert forall|i: int| pos + 1 <= i < pos + n implies w[i] != SEMICOLON by {
            assert(part[i - pos] == w[(i - pos) + pos]);
        }
        lemma_first_at_is(w, SEMICOLON, pos + 1, len, pos + n);
        assert(same_bytes(part, w, 1, n, pos));
        lemma_attribute_moved(part, w, 1, n, pos);
    }
}

/// In `; ` and a key, the key is read as the key, and no value is found.
proof fn lemma_flag_part(key: Seq<u8>)
    requires
        is_plain(key),
        key.len() > 0,
    ensures
        is_part(lead() + key),
        attribute_key(lead() + key, 1, 2 + key.len() as int) == key,
        first_at(lead() + key, EQUALS, 1, 2 + key.len() as int) == 2 + key.len(),
{
    let part = lead() + key;
    let end = 2 + key.len() as int;
    assert(part.len() == end);
    assert(part[0] == SEMICOLON);
    assert(part[1] == SPACE);
    assert forall|i: int| 2 <= i < end implies part[i] == key[i - 2] by {}
    assert(part[2] == key[0]);
    assert(part[end - 1] == key[key.len() - 1]);
    lemma_first_at_is(part, EQUALS, 1, end, end);
    lemma_key_range(part, end);
    assert(part.subrange(2, end) =~= key);
}

/// The range of a key that stands after one space and ends at `end`.
proof fn lemma_key_range(part: Seq<u8>, end: int)
    requires
        3 <= end <= part.len(),
        part[1] == SPACE,
        0x21 <= part[2] <= 0x7E,
        0x21 <= part[end - 1] <= 0x7E,
    ensures
        trimmed(part, 1, end) == (2int, end),
{
    reveal_with_fuel(skip_spaces, 3);
    assert(space_len_at(part, 1, end) == 1);
    assert(space_len_at(part, 2, end) == 0);
    assert(skip_spaces(part, 1, end) == 2);
    assert(space_len_before(part, 2, end) == 0);
    assert(skip_spaces_back(part, 2, end) == end);
}

/// In `; `, a key, `=` and a value, the key is read as the key and the value
/// as the value.
proof fn lemma_keyed_part(key: Seq<u8>, val: Seq<u8>)
    requires
        is_plain(key),
        key.len() > 0,
        is_tidy(val),
    ensures
        ({
            let part = lead() + key + seq![EQUALS] + val;
            let eq = 2 + key.len() as int;
            &&& part.len() == eq + 1 + val.len()
            &&& is_part(part)
            &&& attribute_key(part, 1, part.len() as int) == key
            &&& first_at(part, EQUALS, 1, part.len() as int) == eq
            &&& trimmed(part, eq + 1, part.len() as int) == (eq + 1, part.len() as int)
            &&& part.subrange(eq + 1, part.len() as int) == val
        }),
{
    let part = lead() + key + seq![EQUALS] + val;
    let eq = 2 + key.len() as int;
    let end = part.len() as int;
    assert(end == eq + 1 + val.len());
    assert(part[0] == SEMICOLON);
    assert(part[1] == SPACE);
    assert forall|i: int| 2 <= i < eq implies part[i] == key[i - 2] by {}
    assert(part[eq] == EQUALS);
    assert forall|i: int| eq + 1 <= i < end implies part[i] == val[i - eq - 1] by {}
    assert(part[2] == key[0]);
    assert(part[eq - 1] == key[key.len() - 1]);
    lemma_first_at_is(part, EQUALS, 1, end, eq);
    lemma_key_range(part, eq);
    assert(part.subrange(2, eq) =~= key);
    assert(part.subrange(eq + 1, end) =~= val);
    if val.len() > 0 {
        lemma_trimmed_of_trimmed(part, eq + 1, end);
    }
}

/// Digits are a tidy text.
proof fn lemma_digits_tidy(digits: Seq<u8>)
    requires
        all_digits(digits),
    ensures
        is_tidy(digits),
{
    let n = digits.len() as int;
    if n > 0 {
        reveal_with_fuel(skip_spaces, 2);
        assert(0x30 <= digits[0] <= 0x39);
        assert(0x30 <= digits[n - 1] <= 0x39);
        assert(space_len_at(digits, 0, n) == 0);
        assert(space_len_before(digits, 0, n) == 0);
        assert(skip_spaces_back(digits, 0, n) == n);
    }
    assert forall|i: int| 0 <= i < n implies digits[i] != SEMICOLON by {
        assert(0x30 <= digits[i] <= 0x39);
    }
}

/// What `; Max-Age=` and the digits of `secs` hold.
proof fn lemma_max_age_part(secs: u64)
    ensures
        ({
            let part = "; Max-Age=".spec_bytes() + decimal_digits(secs as nat);
            &&& part.len() > 0
            &&& is_part(part)
            &&& attribute_at(part, 1, part.len() as int) == Attribute::MaxAge(secs)
        }),
{
    let key = "Max-Age".spec_bytes();
    let val = decimal_digits(secs as nat);
    let part = "; Max-Age=".spec_bytes() + val;
    lemma_decimal_round_trip(secs as nat);
    lemma_digits_tidy(val);
    assert(is_plain(key) && key.len() == 7) by {
        lemma_keys();
    }
    assert("; Max-Age=".spec_bytes() == lead() + key + seq![EQUALS]) by {
        lemma_introductions();
    }
    lemma_keyed_part(key, val);
    assert(max_age_of(val) == Some(secs)) by {
        assert(0x30 <= val[0] <= 0x39);
    }
    lemma_keys_differ();
}

/// What `; Domain=`, which has nine bytes, and a tidy domain hold.
proof fn lemma_domain_part(domain: Seq<u8>)
    requires
        is_tidy(domain),
    ensures
        ({
            let part = "; Domain=".spec_bytes() + domain;
            &&& part.len() == 9 + domain.len()
            &&& is_part(part)
            &&& attribute_at(part, 1, part.len() as int) == Attribute::Domain(
                9,
                part.len() as usize,
            )
            &&& part.subrange(9, part.len() as int) == domain
        }),
{
    let key = "Domain".spec_bytes();
    assert(is_plain(key) && key.len() == 6) by {
        lemma_keys();
    }
    assert("; Domain=".spec_bytes() == lead() + key + seq![EQUALS]) by {
        lemma_introductions();
    }
    lemma_keyed_part(key, domain);
    lemma_keys_differ();
}

/// What `; Path=`, which has seven bytes, and a tidy path hold.
proof fn lemma_path_part(path: Seq<u8>)
    requires
        is_tidy(path),
    ensures
        ({
            let part = "; Path=".spec_bytes() + path;
            &&& part.len() == 7 + path.len()
            &&& is_part(part)
            &&& attribute_at(part, 1, part.len() as int) == Attribute::Path(7, part.len() as usize)
            &&& part.subrange(7, part.len() as int) == path
        }),
{
    let key = "Path".spec_bytes();
    assert(is_plain(key) && key.len() == 4) by {
        lemma_keys();
    }
    assert("; Path=".spec_bytes() == lead() + key + seq![EQUALS]) by {
        lemma_introductions();
    }
    lemma_keyed_part(key, path);
    lemma_keys_differ();
}

/// What `; Secure` and `; HttpOnly` hold.
proof fn lemma_flag_parts()
    ensures
        "; Secure".spec_bytes().len() > 0,
        is_part("; Secure".spec_bytes()),
        attribute_at("; Secure".spec_bytes(), 1, "; Secure".spec_bytes().len() as int)
            == Attribute::Secure,
        "; HttpOnly".spec_bytes().len() > 0,
        is_part("; HttpOnly".spec_bytes()),
        attribute_at("; HttpOnly".spec_bytes(), 1, "; HttpOnly".spec_bytes().len() as int)
            == Attribute::HttpOnly,
{
    let secure = "Secure".spec_bytes();
    let http_only = "HttpOnly".spec_bytes();
    assert(is_plain(secure) && secure.len() == 6 && is_plain(http_only) && http_only.len() == 8)
        by {
        lemma_keys();
    }
    assert("; Secure".spec_bytes() == lead() + secure && "; HttpOnly".spec_bytes() == lead()
        + http_only) by {
        lemma_introductions();
    }
    lemma_flag_part(secure);
    lemma_flag_part(http_only);
    lemma_keys_differ();
}

/// The written form of a `SameSite` value is tidy and names the value.
proof fn lemma_same_site_word(same_site: SameSite)
    ensures
        is_tidy(same_site.word()),
        SameSite::lenient(same_site.word()) == Some(same_site),
{
    lemma_same_site_words();
    let word = same_site.word();
    let n = word.len() as int;
    reveal_with_fuel(skip_spaces, 2);
    assert(space_len_at(word, 0, n) == 0);
    assert(space_len_before(word, 0, n) == 0);
    assert(skip_spaces_back(word, 0, n) == n);
    match same_site {
        SameSite::Strict => {},
        SameSite::Lax => {
            assert("strict".spec_bytes().len() != word.len());
        },
        SameSite::Unrestricted => {
            assert("strict".spec_bytes().len() != word.len());
            assert("lax".spec_bytes().len() != word.len());
        },
    }
}

/// What `; SameSite=` and the written form of a value hold.
proof fn lemma_same_site_part(same_site: SameSite)
    ensures
        ({
            let part = "; SameSite=".spec_bytes() + same_site.word();
            &&& part.len() > 0
            &&& is_part(part)
            &&& attribute_at(part, 1, part.len() as int) == Attribute::SameSite(same_site)
        }),
{
    let key = "SameSite".spec_bytes();
    let val = same_site.word();
    lemma_same_site_word(same_site);
    assert(is_plain(key) && key.len() == 8) by {
        lemma_keys();
    }
    assert("; SameSite=".spec_bytes() == lead() + key + seq![EQUALS]) by {
        lemma_introductions();
    }
    lemma_keyed_part(key, val);
    lemma_keys_differ();
}

/// What `; Expires=`, which has ten bytes, and a tidy value hold.
proof fn lemma_expires_part(val: Seq<u8>)
    requires
        is_tidy(val),
    ensures
        ({
            let part = "; Expires=".spec_bytes() + val;
            &&& part.len() == 10 + val.len()
            &&& is_part(part)
            &&& attribute_at(part, 1, part.len() as int) == Attribute::Expires(
                10,
                part.len() as usize,
            )
            &&& part.subrange(10, part.len() as int) == val
        }),
{
    let key = "Expires".spec_bytes();
    assert(is_plain(key) && key.len() == 7) by {
        lemma_keys();
    }
    assert("; Expires=".spec_bytes() == lead() + key + seq![EQUALS]) by {
        lemma_introductions();
    }
    lemma_keyed_part(key, val);
    lemma_keys_differ();
}

/// The `Expires` part of a wire form is read as the instant it was written for.
proof fn lemma_expires_step(w: Seq<u8>, pos: int, c: CookieView, rest: Seq<u8>, acc: Parsed)
    requires
        w.len() <= usize::MAX,
        0 <= pos <= w.len(),
        w.subrange(pos, w.len() as int) == c.expires_part() + rest,
        starts_anew(rest),
        date_reads_back(c),
    ensures
        pos + c.expires_part().len() + rest.len() == w.len(),
        w.subrange(pos + c.expires_part().len(), w.len() as int) == rest,
        attributes_from(w, pos, acc) == attributes_from(
            w,
            pos + c.expires_part().len(),
            Parsed {
                expires: match c.expires {
                    Some(Expiration::DateTime(at)) => Some(at),
                    _ => acc.expires,
                },
                ..acc
            },
        ),
{
    let part = c.expires_part();
    match c.expires {
        Some(Expiration::DateTime(at)) => {
            let written = written_date(at);
            lemma_expires_part(written);
            lemma_expires_attribute(at);
            lemma_step(w, pos, part, rest, acc);
            let n = part.len() as int;
            assert(date_for(part, attribute_at(part, 1, n)) == Some(at));
        },
        _ => {
            assert(part + rest =~= rest);
            assert(w.subrange(pos, w.len() as int).len() == rest.len());
        },
    }
}

/// The `Max-Age` part of a wire form is read as the seconds it holds.
proof fn lemma_max_age_step(w: Seq<u8>, pos: int, c: CookieView, rest: Seq<u8>, acc: Parsed)
    requires
        w.len() <= usize::MAX,
        0 <= pos <= w.len(),
        w.subrange(pos, w.len() as int) == c.max_age_part() + rest,
        starts_anew(rest),
    ensures
        pos + c.max_age_part().len() + rest.len() == w.len(),
        w.subrange(pos + c.max_age_part().len(), w.len() as int) == rest,
        attributes_from(w, pos, acc) == attributes_from(
            w,
            pos + c.max_age_part().len(),
            Parsed {
                max_age: if c.max_age is Some {
                    c.max_age
                } else {
                    acc.max_age
                },
                ..acc
            },
        ),
{
    let part = c.max_age_part();
    match c.max_age {
        Some(secs) => {
            lemma_max_age_part(secs);
            lemma_step(w, pos, part, rest, acc);
        },
        None => {
            assert(part + rest =~= rest);
            assert(w.subrange(pos, w.len() as int).len() == rest.len());
        },
    }
}

/// The `Domain` part of a wire form is read as the range of the domain,
/// which stands nine bytes into the part.
proof fn lemma_domain_step(w: Seq<u8>, pos: int, c: CookieView, rest: Seq<u8>, acc: Parsed)
    requires
        w.len() <= usize::MAX,
        0 <= pos <= w.len(),
        w.subrange(pos, w.len() as int) == c.domain_part() + rest,
        starts_anew(rest),
        c.domain_given() matches Some(domain) ==> is_tidy(domain),
    ensures
        pos + c.domain_part().len() + rest.len() == w.len(),
        w.subrange(pos + c.domain_part().len(), w.len() as int) == rest,
        c.domain_given() matches Some(domain) ==> {
            &&& c.domain_part().len() == 9 + domain.len()
            &&& stands_at(w, pos + 9, domain)
        },
        attributes_from(w, pos, acc) == attributes_from(
            w,
            pos + c.domain_part().len(),
            Parsed {
                domain: match c.domain_given() {
                    Some(domain) => Some(value_range(pos + 9, domain)),
                    None => acc.domain,
                },
                ..acc
            },
        ),
{
    let part = c.domain_part();
    match c.domain_given() {
        Some(domain) => {
            lemma_domain_part(domain);
            lemma_step(w, pos, part, rest, acc);
            let n = part.len() as int;
            assert(pos + n <= w.len()) by {
                assert(w.subrange(pos, w.len() as int).len() == (part + rest).len());
            }
            lemma_subrange_moved(part, w, 0, n, pos, 9, n);
        },
        None => {
            assert(part + rest =~= rest);
            assert(w.subrange(pos, w.len() as int).len() == rest.len());
        },
    }
}

/// The `Path` part of a wire form is read as the range of the path, which
/// stands seven bytes into the part.
proof fn lemma_path_step(w: Seq<u8>, pos: int, c: CookieView, rest: Seq<u8>, acc: Parsed)
    requires
        w.len() <= usize::MAX,
        0 <= pos <= w.len(),
        w.subrange(pos, w.len() as int) == c.path_part() + rest,
        starts_anew(rest),
        c.path_text() matches Some(path) ==> is_tidy(path),
    ensures
        pos + c.path_part().len() + rest.len() == w.len(),
        w.subrange(pos + c.path_part().len(), w.len() as int) == rest,
        c.path_text() matches Some(path) ==> {
            &&& c.path_part().len() == 7 + path.len()
            &&& stands_at(w, pos + 7, path)
        },
        attributes_from(w, pos, acc) == attributes_from(
            w,
            pos + c.path_part().len(),
            Parsed {
                path: match c.path_text() {
                    Some(path) => Some(value_range(pos + 7, path)),
                    None => acc.path,
                },
                ..acc
            },
        ),
{
    let part = c.path_part();
    match c.path_text() {
        Some(path) => {
            lemma_path_part(path);
            lemma_step(w, pos, part, rest, acc);
            let n = part.len() as int;
            assert(pos + n <= w.len()) by {
                assert(w.subrange(pos, w.len() as int).len() == (part + rest).len());
            }
            lemma_subrange_moved(part, w, 0, n, pos, 7, n);
        },
        None => {
            assert(part + rest =~= rest);
            assert(w.subrange(pos, w.len() as int).len() == rest.len());
        },
    }
}

/// The `Secure` part of a wire form is read as `Secure`.
proof fn lemma_secure_step(w: Seq<u8>, pos: int, c: CookieView, rest: Seq<u8>, acc: Parsed)
    requires
        w.len() <= usize::MAX,
        0 <= pos <= w.len(),
        w.subrange(pos, w.len() as int) == c.secure_part() + rest,
        starts_anew(rest),
    ensures
        pos + c.secure_part().len() + rest.len() == w.len(),
        w.subrange(pos + c.secure_part().len(), w.len() as int) == rest,
        attributes_from(w, pos, acc) == attributes_from(
            w,
            pos + c.secure_part().len(),
            Parsed {
                secure: if c.secure == Some(true) {
                    Some(true)
                } else {
                    acc.secure
                },
                ..acc
            },
        ),
{
    let part = c.secure_part();
    if c.secure == Some(true) {
        lemma_flag_parts();
        lemma_step(w, pos, part, rest, acc);
    } else {
        assert(part + rest =~= rest);
        assert(w.subrange(pos, w.len() as int).len() == rest.len());
    }
}

/// The `HttpOnly` part of a wire form is read as `HttpOnly`.
proof fn lemma_http_only_step(w: Seq<u8>, pos: int, c: CookieView, rest: Seq<u8>, acc: Parsed)
    requires
        w.len() <= usize::MAX,
        0 <= pos <= w.len(),
        w.subrange(pos, w.len() as int) == c.http_only_part() + rest,
        starts_anew(rest),
    ensures
        pos + c.http_only_part().len() + rest.len() == w.len(),
        w.subrange(pos + c.http_only_part().len(), w.len() as int) == rest,
        attributes_from(w, pos, acc) == attributes_from(
            w,
            pos + c.http_only_part().len(),
            Parsed {
                http_only: if c.http_only == Some(true) {
                    Some(true)
                } else {
                    acc.http_only
                },
                ..acc
            },
        ),
{
    let part = c.http_only_part();
    if c.http_only == Some(true) {
        lemma_flag_parts();
        lemma_step(w, pos, part, rest, acc);
    } else {
        assert(part + rest =~= rest);
        assert(w.subrange(pos, w.len() as int).len() == rest.len());
    }
}

/// The `SameSite` part of a wire form is read as the value it holds.
proof fn lemma_same_site_step(w: Seq<u8>, pos: int, c: CookieView, rest: Seq<u8>, acc: Parsed)
    requires
        w.len() <= usize::MAX,
        0 <= pos <= w.len(),
        w.subrange(pos, w.len() as int) == c.same_site_part() + rest,
        starts_anew(rest),
    ensures
        pos + c.same_site_part().len() + rest.len() == w.len(),
        w.subrange(pos + c.same_site_part().len(), w.len() as int) == rest,
        attributes_from(w, pos, acc) == attributes_from(
            w,
            pos + c.same_site_part().len(),
            Parsed {
                same_site: if c.same_site is Some {
                    c.same_site
                } else {
                    acc.same_site
                },
                ..acc
            },
        ),
{
    let part = c.same_site_part();
    match c.same_site {
        Some(same_site) => {
            lemma_same_site_part(same_site);
            lemma_step(w, pos, part, rest, acc);
        },
        None => {
            assert(part + rest =~= rest);
            assert(w.subrange(pos, w.len() as int).len() == rest.len());
        },
    }
}

/// The start of a wire form is read as the name and the value.
proof fn lemma_head(w: Seq<u8>, name: Seq<u8>, value: Seq<u8>, rest: Seq<u8>)
    requires
        w.len() <= usize::MAX,
        w == name + seq![EQUALS] + value + rest,
        is_tidy_name(name),
        is_tidy(value),
        starts_anew(rest),
    ensures
        ({
            let n = name.len() as int;
            let h = n + 1 + value.len();
            &&& h + rest.len() == w.len()
            &&& parse_spec(w) == attributes_from(
                w,
                h,
                Parsed::start((0, n as usize), ((n + 1) as usize, h as usize)),
            )
            &&& w.subrange(0, n) == name
            &&& w.subrange(n + 1, h) == value
            &&& w.subrange(h, w.len() as int) == rest
        }),
{
    let n = name.len() as int;
    let h = n + 1 + value.len();
    let len = w.len() as int;
    assert forall|i: int| 0 <= i < n implies w[i] == name[i] by {}
    assert(w[n] == EQUALS);
    assert forall|i: int| n + 1 <= i < h implies w[i] == value[i - n - 1] by {}
    assert forall|i: int| h <= i < len implies w[i] == rest[i - h] by {}
    assert(w.subrange(0, n) =~= name);
    assert(w.subrange(n + 1, h) =~= value);
    assert(w.subrange(h, len) =~= rest);
    lemma_first_at_is(w, EQUALS, 0, len, n);
    lemma_trimmed_of_trimmed(w, 0, n);
    lemma_first_at_is(w, SEMICOLON, n + 1, len, h);
    if value.len() > 0 {
        lemma_trimmed_of_trimmed(w, n + 1, h);
    }
}

/// Each part of a wire form is empty or starts with `;`.
proof fn lemma_parts_start_anew(c: CookieView)
    ensures
        starts_anew(c.expires_part()),
        starts_anew(c.max_age_part()),
        starts_anew(c.domain_part()),
        starts_anew(c.path_part()),
        starts_anew(c.secure_part()),
        starts_anew(c.http_only_part()),
        starts_anew(c.same_site_part()),
{
    lemma_introductions();
    assert(lead()[0] == SEMICOLON);
    if c.expires_part().len() > 0 {
        assert(c.expires_part()[0] == lead()[0]);
    }
}

/// A part followed by what starts anew starts anew.
proof fn lemma_starts_anew(part: Seq<u8>, rest: Seq<u8>)
    requires
        starts_anew(part),
        starts_anew(rest),
    ensures
        starts_anew(part + rest),
{
    if part.len() > 0 {
        assert((part + rest)[0] == part[0]);
    } else {
        assert(part + rest =~= rest);
    }
}

/// The parts for `Max-Age`, `Domain` and `Path` are read one after the other.
proof fn lemma_texts_chain(w: Seq<u8>, pos: int, c: CookieView, rest: Seq<u8>, acc: Parsed)
    requires
        w.len() <= usize::MAX,
        0 <= pos <= w.len(),
        w.subrange(pos, w.len() as int) == c.max_age_part() + (c.domain_part() + (c.path_part()
            + rest)),
        starts_anew(rest),
        c.domain_given() matches Some(domain) ==> is_tidy(domain),
        c.path_text() matches Some(path) ==> is_tidy(path),
    ensures
        ({
            let after_max_age = pos + c.max_age_part().len();
            let after_domain = after_max_age + c.domain_part().len();
            let after_path = after_domain + c.path_part().len();
            &&& after_path + rest.len() == w.len()
            &&& w.subrange(after_path, w.len() as int) == rest
            &&& (c.domain_given() matches Some(domain) ==> stands_at(w, after_max_age + 9, domain))
            &&& (c.path_text() matches Some(path) ==> stands_at(w, after_domain + 7, path))
            &&& attributes_from(w, pos, acc) == attributes_from(
                w,
                after_path,
                Parsed {
                    max_age: if c.max_age is Some {
                        c.max_age
                    } else {
                        acc.max_age
                    },
                    domain: match c.domain_given() {
                        Some(domain) => Some(value_range(after_max_age + 9, domain)),
                        None => acc.domain,
                    },
                    path: match c.path_text() {
                        Some(path) => Some(value_range(after_domain + 7, path)),
                        None => acc.path,
                    },
                    ..acc
                },
            )
        }),
{
    lemma_parts_start_anew(c);
    let r3 = c.path_part() + rest;
    let r2 = c.domain_part() + r3;
    lemma_starts_anew(c.path_part(), rest);
    lemma_starts_anew(c.domain_part(), r3);
    lemma_max_age_step(w, pos, c, r2, acc);
    let after_max_age = pos + c.max_age_part().len();
    let acc1 = Parsed {
        max_age: if c.max_age is Some {
            c.max_age
        } else {
            acc.max_age
        },
        ..acc
    };
    lemma_domain_step(w, after_max_age, c, r3, acc1);
    let after_domain = after_max_age + c.domain_part().len();
    let acc2 = Parsed {
        domain: match c.domain_given() {
            Some(domain) => Some(value_range(after_max_age + 9, domain)),
            None => acc1.domain,
        },
        ..acc1
    };
    lemma_path_step(w, after_domain, c, rest, acc2);
}

/// The parts for `Secure`, `HttpOnly` and `SameSite` are read one after the
/// other, to the end of the wire form.
proof fn lemma_flags_chain(w: Seq<u8>, pos: int, c: CookieView, acc: Parsed)
    requires
        w.len() <= usize::MAX,
        0 <= pos <= w.len(),
        w.subrange(pos, w.len() as int) == c.secure_part() + (c.http_only_part()
            + c.same_site_part()),
    ensures
        attributes_from(w, pos, acc) == Ok::<Parsed, ParseError>(
            Parsed {
                secure: if c.secure == Some(true) {
                    Some(true)
                } else {
                    acc.secure
                },
                http_only: if c.http_only == Some(true) {
                    Some(true)
                } else {
                    acc.http_only
                },
                same_site: if c.same_site is Some {
                    c.same_site
                } else {
                    acc.same_site
                },
                ..acc
            },
        ),
{
    lemma_parts_start_anew(c);
    let r6 = c.same_site_part();
    let r5 = c.http_only_part() + r6;
    lemma_starts_anew(c.http_only_part(), r6);
    lemma_secure_step(w, pos, c, r5, acc);
    let after_secure = pos + c.secure_part().len();
    let acc4 = Parsed {
        secure: if c.secure == Some(true) {
            Some(true)
        } else {
            acc.secure
        },
        ..acc
    };
    lemma_http_only_step(w, after_secure, c, r6, acc4);
    let after_http_only = after_secure + c.http_only_part().len();
    let acc5 = Parsed {
        http_only: if c.http_only == Some(true) {
            Some(true)
        } else {
            acc4.http_only
        },
        ..acc4
    };
    assert(r6 =~= c.same_site_part() + Seq::<u8>::empty());
    lemma_same_site_step(w, after_http_only, c, Seq::<u8>::empty(), acc5);
}

/// Ten texts in a row are the first three and then the rest, whichever way
/// they are put together.
proof fn lemma_regroup(
    name: Seq<u8>,
    equals: Seq<u8>,
    value: Seq<u8>,
    expires: Seq<u8>,
    max_age: Seq<u8>,
    domain: Seq<u8>,
    path: Seq<u8>,
    secure: Seq<u8>,
    http_only: Seq<u8>,
    same_site: Seq<u8>,
)
    ensures
        name + equals + value + expires + max_age + domain + path + secure + http_only + same_site
            == name + equals + value + (expires + (max_age + (domain + (path + (secure + (http_only
            + same_site)))))),
{
    let left = name + equals + value + expires + max_age + domain + path + secure + http_only
        + same_site;
    let right = name + equals + value + (expires + (max_age + (domain + (path + (secure + (
    http_only + same_site))))));
    assert(left =~= right);
}

/// The wire form of a cookie, with its parts grouped as they are read.
proof fn lemma_wire_form_shape(c: CookieView)
    ensures
        c.serialized() == c.name_text() + seq![EQUALS] + c.value_text() + attribute_parts(c),
{
    assert("=".spec_bytes() == seq![EQUALS]) by {
        lemma_introductions();
    }
    lemma_regroup(
        c.name_text(),
        "=".spec_bytes(),
        c.value_text(),
        c.expires_part(),
        c.max_age_part(),
        c.domain_part(),
        c.path_part(),
        c.secure_part(),
        c.http_only_part(),
        c.same_site_part(),
    );
}

/// The attributes of a wire form, as they stand after the value.
pub open spec fn attribute_parts(c: CookieView) -> Seq<u8> {
    c.expires_part() + later_parts(c)
}

/// The attributes of a wire form that follow `Expires`.
pub open spec fn later_parts(c: CookieView) -> Seq<u8> {
    c.max_age_part() + (c.domain_part() + (c.path_part() + (c.secure_part() + (c.http_only_part()
        + c.same_site_part()))))
}

/// What the attributes of a wire form add to `acc`, where they start at `h`.
pub open spec fn attributes_read(c: CookieView, h: int, acc: Parsed) -> Parsed {
    let after_max_age = h + c.expires_part().len() + c.max_age_part().len();
    let after_domain = after_max_age + c.domain_part().len();
    Parsed {
        expires: match c.expires {
            Some(Expiration::DateTime(at)) => Some(at),
            _ => acc.expires,
        },
        max_age: if c.max_age is Some {
            c.max_age
        } else {
            acc.max_age
        },
        domain: match c.domain_given() {
            Some(domain) => Some(value_range(after_max_age + 9, domain)),
            None => acc.domain,
        },
        path: match c.path_text() {
            Some(path) => Some(value_range(after_domain + 7, path)),
            None => acc.path,
        },
        secure: if c.secure == Some(true) {
            Some(true)
        } else {
            acc.secure
        },
        http_only: if c.http_only == Some(true) {
            Some(true)
        } else {
            acc.http_only
        },
        same_site: if c.same_site is Some {
            c.same_site
        } else {
            acc.same_site
        },
        ..acc
    }
}

/// The attributes of a wire form that follow `Expires` are read one after
/// the other, to its end.
proof fn lemma_later_chain(w: Seq<u8>, h: int, c: CookieView, acc: Parsed)
    requires
        w.len() <= usize::MAX,
        0 <= h <= w.len(),
        w.subrange(h, w.len() as int) == later_parts(c),
        c.domain_given() matches Some(domain) ==> is_tidy(domain),
        c.path_text() matches Some(path) ==> is_tidy(path),
    ensures
        ({
            let after_max_age = h + c.max_age_part().len();
            let after_domain = after_max_age + c.domain_part().len();
            &&& (c.domain_given() matches Some(domain) ==> stands_at(w, after_max_age + 9, domain))
            &&& (c.path_text() matches Some(path) ==> stands_at(w, after_domain + 7, path))
            &&& attributes_from(w, h, acc) == Ok::<Parsed, ParseError>(
                Parsed {
                    max_age: if c.max_age is Some {
                        c.max_age
                    } else {
                        acc.max_age
                    },
                    domain: match c.domain_given() {
                        Some(domain) => Some(value_range(after_max_age + 9, domain)),
                        None => acc.domain,
                    },
                    path: match c.path_text() {
                        Some(path) => Some(value_range(after_domain + 7, path)),
                        None => acc.path,
                    },
                    secure: if c.secure == Some(true) {
                        Some(true)
                    } else {
                        acc.secure
                    },
                    http_only: if c.http_only == Some(true) {
                        Some(true)
                    } else {
                        acc.http_only
                    },
                    same_site: if c.same_site is Some {
                        c.same_site
                    } else {
                        acc.same_site
                    },
                    ..acc
                },
            )
        }),
{
    let flags = c.secure_part() + (c.http_only_part() + c.same_site_part());
    assert(starts_anew(flags)) by {
        lemma_parts_start_anew(c);
        lemma_starts_anew(c.http_only_part(), c.same_site_part());
        lemma_starts_anew(c.secure_part(), c.http_only_part() + c.same_site_part());
    }
    lemma_texts_chain(w, h, c, flags, acc);
    let after_max_age = h + c.max_age_part().len();
    let after_domain = after_max_age + c.domain_part().len();
    let after_path = after_domain + c.path_part().len();
    let acc3 = Parsed {
        max_age: if c.max_age is Some {
            c.max_age
        } else {
            acc.max_age
        },
        domain: match c.domain_given() {
            Some(domain) => Some(value_range(after_max_age + 9, domain)),
            None => acc.domain,
        },
        path: match c.path_text() {
            Some(path) => Some(value_range(after_domain + 7, path)),
            None => acc.path,
        },
        ..acc
    };
    lemma_flags_chain(w, after_path, c, acc3);
}

/// The attributes of a wire form are read one after the other, to its end.
proof fn lemma_attributes_chain(w: Seq<u8>, h: int, c: CookieView, acc: Parsed)
    requires
        w.len() <= usize::MAX,
        0 <= h <= w.len(),
        w.subrange(h, w.len() as int) == attribute_parts(c),
        date_reads_back(c),
        c.domain_given() matches Some(domain) ==> is_tidy(domain),
        c.path_text() matches Some(path) ==> is_tidy(path),
    ensures
        attributes_from(w, h, acc) == Ok::<Parsed, ParseError>(attributes_read(c, h, acc)),
        ({
            let after_max_age = h + c.expires_part().len() + c.max_age_part().len();
            let after_domain = after_max_age + c.domain_part().len();
            &&& (c.domain_given() matches Some(domain) ==> stands_at(w, after_max_age + 9, domain))
            &&& (c.path_text() matches Some(path) ==> stands_at(w, after_domain + 7, path))
        }),
{
    lemma_later_parts_start_anew(c);
    lemma_expires_step(w, h, c, later_parts(c), acc);
    let after_expires = h + c.expires_part().len();
    let acc0 = Parsed {
        expires: match c.expires {
            Some(Expiration::DateTime(at)) => Some(at),
            _ => acc.expires,
        },
        ..acc
    };
    lemma_later_chain(w, after_expires, c, acc0);
}

/// The attributes of a wire form start anew.
proof fn lemma_attribute_parts_start_anew(c: CookieView)
    ensures
        starts_anew(attribute_parts(c)),
{
    lemma_parts_start_anew(c);
    lemma_later_parts_start_anew(c);
    lemma_starts_anew(c.expires_part(), later_parts(c));
}

/// The attributes of a wire form that follow `Expires` start anew.
proof fn lemma_later_parts_start_anew(c: CookieView)
    ensures
        starts_anew(later_parts(c)),
{
    lemma_parts_start_anew(c);
    let r6 = c.same_site_part();
    let r5 = c.http_only_part() + r6;
    let r4 = c.secure_part() + r5;
    let r3 = c.path_part() + r4;
    let r2 = c.domain_part() + r3;
    lemma_starts_anew(c.http_only_part(), r6);
    lemma_starts_anew(c.secure_part(), r5);
    lemma_starts_anew(c.path_part(), r4);
    lemma_starts_anew(c.domain_part(), r3);
    lemma_starts_anew(c.max_age_part(), r2);
}

/// What the wire form of a tidy cookie is read as.
pub open spec fn wire_form_parsed(c: CookieView) -> Parsed {
    let n = c.name_text().len() as int;
    let h = n + 1 + c.value_text().len();
    attributes_read(c, h, Parsed::start((0, n as usize), ((n + 1) as usize, h as usize)))
}

/// The wire form of a tidy cookie whose expiry is read back is read as
/// `wire_form_parsed` says, and holds the texts of the cookie in those ranges.
proof fn lemma_wire_form_parsed(c: CookieView)
    requires
        is_tidy_cookie(c),
        date_reads_back(c),
        c.serialized().len() <= usize::MAX,
    ensures
        parse_spec(c.serialized()) == Ok::<Parsed, ParseError>(wire_form_parsed(c)),
        ({
            let w = c.serialized();
            let n = c.name_text().len() as int;
            let h = n + 1 + c.value_text().len();
            let after_max_age = h + c.expires_part().len() + c.max_age_part().len();
            let after_domain = after_max_age + c.domain_part().len();
            &&& h <= w.len()
            &&& w.subrange(0, n) == c.name_text()
            &&& w.subrange(n + 1, h) == c.value_text()
            &&& (c.domain_given() matches Some(domain) ==> stands_at(w, after_max_age + 9, domain))
            &&& (c.path_text() matches Some(path) ==> stands_at(w, after_domain + 7, path))
        }),
{
    let w = c.serialized();
    let name = c.name_text();
    let value = c.value_text();
    lemma_wire_form_shape(c);
    lemma_attribute_parts_start_anew(c);
    lemma_head(w, name, value, attribute_parts(c));
    let n = name.len() as int;
    let h = n + 1 + value.len();
    let acc0 = Parsed::start((0, n as usize), ((n + 1) as usize, h as usize));
    lemma_attributes_chain(w, h, c, acc0);
}

/// Cookies that hold the same texts and the same attributes are written the same.
pub proof fn law_same_fields_same_wire_form(c: CookieView, d: CookieView)
    requires
        same_fields(c, d),
    ensures
        d.serialized() == c.serialized(),
{
}

/// A cookie whose texts stand in `w` where `wire_form_parsed` says holds the
/// same texts and the same attributes as the cookie that is read from `w`.
proof fn lemma_fields_from_ranges(c: CookieView, w: Seq<u8>, borrowed: bool)
    requires
        w.len() <= usize::MAX,
        c.expires != Some(Expiration::Session),
        c.secure != Some(false),
        c.http_only != Some(false),
        ({
            let n = c.name_text().len() as int;
            let h = n + 1 + c.value_text().len();
            let after_max_age = h + c.expires_part().len() + c.max_age_part().len();
            let after_domain = after_max_age + c.domain_part().len();
            &&& h <= w.len()
            &&& w.subrange(0, n) == c.name_text()
            &&& w.subrange(n + 1, h) == c.value_text()
            &&& (c.domain_given() matches Some(domain) ==> stands_at(w, after_max_age + 9, domain))
            &&& (c.path_text() matches Some(path) ==> stands_at(w, after_domain + 7, path))
        }),
    ensures
        same_fields(c, CookieView::of_parsed(w, borrowed, wire_form_parsed(c))),
        CookieView::of_parsed(w, borrowed, wire_form_parsed(c)).wf_ranges(),
{
    let q = wire_form_parsed(c);
    let d = CookieView::of_parsed(w, borrowed, q);
    let n = c.name_text().len() as int;
    let h = n + 1 + c.value_text().len();
    let after_max_age = h + c.expires_part().len() + c.max_age_part().len();
    let after_domain = after_max_age + c.domain_part().len();
    assert(c.secure is None || c.secure == Some(true)) by {
        if let Some(flag) = c.secure {
            if !flag {
                assert(c.secure == Some(false));
            }
        }
    }
    assert(c.http_only is None || c.http_only == Some(true)) by {
        if let Some(flag) = c.http_only {
            if !flag {
                assert(c.http_only == Some(false));
            }
        }
    }
    assert(d.bytes() == Some(w));
    assert(q.name == (0usize, n as usize));
    assert(q.value == ((n + 1) as usize, h as usize));
    assert(d.name_text() == c.name_text());
    assert(d.value_text() == c.value_text());
    assert(d.domain_given() == c.domain_given()) by {
        match c.domain_given() {
            Some(domain) => {
                assert(q.domain == Some(value_range(after_max_age + 9, domain)));
            },
            None => {
                assert(q.domain is None);
            },
        }
    }
    assert(d.path_text() == c.path_text()) by {
        match c.path_text() {
            Some(path) => {
                assert(q.path == Some(value_range(after_domain + 7, path)));
            },
            None => {
                assert(q.path is None);
            },
        }
    }
}

/// The cookie that the wire form of a tidy cookie whose expiry is read back
/// is read as holds the same texts and the same attributes.
proof fn lemma_wire_form_read(c: CookieView, borrowed: bool)
    requires
        is_tidy_cookie(c),
        date_reads_back(c),
        c.serialized().len() <= usize::MAX,
    ensures
        parse_spec(c.serialized()) == Ok::<Parsed, ParseError>(wire_form_parsed(c)),
        same_fields(c, CookieView::of_parsed(c.serialized(), borrowed, wire_form_parsed(c))),
        CookieView::of_parsed(c.serialized(), borrowed, wire_form_parsed(c)).wf_ranges(),
{
    lemma_wire_form_parsed(c);
    lemma_fields_from_ranges(c, c.serialized(), borrowed);
}

/// The wire form of a tidy cookie is read back as a cookie that holds the
/// same texts and the same attributes, if its expiry, where it has one, is
/// read back from what is written for it.
pub proof fn law_wire_form_reads_back(c: CookieView, borrowed: bool)
    requires
        is_tidy_cookie(c),
        c.serialized().len() <= usize::MAX,
    ensures
        date_reads_back(c) ==> (parsed_cookie(c.serialized(), borrowed) matches Ok(d)
            && same_fields(c, d) && d.wf_ranges() && d.serialized() == c.serialized()),
{
    if date_reads_back(c) {
        lemma_wire_form_read(c, borrowed);
        let d = CookieView::of_parsed(c.serialized(), borrowed, wire_form_parsed(c));
        law_same_fields_same_wire_form(c, d);
    }
}

/// Whether the texts that `p` gives of `s` are tidy, and no flag is false.
pub open spec fn is_tidy_parsed(s: Seq<u8>, p: Parsed) -> bool {
    &&& p.name.0 <= p.name.1 <= s.len()
    &&& p.value.0 <= p.value.1 <= s.len()
    &&& is_tidy_name(s.subrange(p.name.0 as int, p.name.1 as int))
    &&& is_tidy(s.subrange(p.value.0 as int, p.value.1 as int))
    &&& (p.domain matches Some(r) ==> r.0 <= r.1 <= s.len() && is_tidy(
        s.subrange(r.0 as int, r.1 as int),
    ))
    &&& (p.path matches Some(r) ==> r.0 <= r.1 <= s.len() && is_tidy(
        s.subrange(r.0 as int, r.1 as int),
    ))
    &&& p.secure != Some(false)
    &&& p.http_only != Some(false)
}

/// What trimming leaves of a range without `b` holds no `b`.
proof fn lemma_trimmed_without(s: Seq<u8>, from: int, to: int, b: u8)
    requires
        0 <= from <= to <= s.len(),
        forall|i: int| from <= i < to ==> s[i] != b,
    ensures
        ({
            let r = trimmed(s, from, to);
            let x = s.subrange(r.0, r.1);
            &&& from <= r.0 <= r.1 <= to
            &&& is_trimmed(x)
            &&& forall|i: int| 0 <= i < x.len() ==> x[i] != b
        }),
{
    lemma_trimmed_is_trimmed(s, from, to);
}

/// The text that an attribute carries is tidy.
proof fn lemma_attribute_tidy(s: Seq<u8>, start: int, end: int)
    requires
        s.len() <= usize::MAX,
        0 <= start <= end <= s.len(),
        forall|i: int| start <= i < end ==> s[i] != SEMICOLON,
    ensures
        attribute_at(s, start, end) matches Attribute::Domain(a, b) ==> a <= b <= s.len()
            && is_tidy(s.subrange(a as int, b as int)),
        attribute_at(s, start, end) matches Attribute::Path(a, b) ==> a <= b <= s.len() && is_tidy(
            s.subrange(a as int, b as int),
        ),
{
    lemma_first_at(s, EQUALS, start, end);
    let eq = first_at(s, EQUALS, start, end);
    if eq < end {
        lemma_trimmed_without(s, eq + 1, end, SEMICOLON);
    }
}

/// Reading attributes keeps the texts tidy.
proof fn lemma_attributes_tidy(s: Seq<u8>, pos: int, acc: Parsed)
    requires
        s.len() <= usize::MAX,
        0 <= pos <= s.len(),
        is_tidy_parsed(s, acc),
    ensures
        attributes_from(s, pos, acc) matches Ok(p) ==> is_tidy_parsed(s, p),
    decreases s.len() - pos,
{
    if pos < s.len() {
        let n = s.len() as int;
        lemma_first_at(s, SEMICOLON, pos + 1, n);
        let end = first_at(s, SEMICOLON, pos + 1, n);
        lemma_attribute_tidy(s, pos + 1, end);
        let attr = attribute_at(s, pos + 1, end);
        match acc.with(attr, date_for(s, attr)) {
            Ok(next) => {
                lemma_attributes_tidy(s, end, next);
            },
            Err(_) => {},
        }
    }
}

/// A cookie that was read from a cookie string is tidy.
pub proof fn law_parsed_cookie_is_tidy(s: Seq<u8>, borrowed: bool)
    requires
        s.len() <= usize::MAX,
        parsed_cookie(s, borrowed) is Ok,
    ensures
        is_tidy_cookie(parsed_cookie(s, borrowed)->Ok_0),
        parsed_cookie(s, borrowed)->Ok_0.wf_ranges(),
{
    let n = s.len() as int;
    lemma_first_at(s, EQUALS, 0, n);
    let eq = first_at(s, EQUALS, 0, n);
    lemma_first_at(s, SEMICOLON, eq + 1, n);
    let end = first_at(s, SEMICOLON, eq + 1, n);
    lemma_trimmed_without(s, 0, eq, EQUALS);
    lemma_trimmed_without(s, eq + 1, end, SEMICOLON);
    let name = trimmed(s, 0, eq);
    let value = trimmed(s, eq + 1, end);
    let first = Parsed::start(
        (name.0 as usize, name.1 as usize),
        (value.0 as usize, value.1 as usize),
    );
    lemma_attributes_tidy(s, end, first);
}

/// Writing a cookie that was read from a cookie string, and reading what was
/// written, gives a cookie that holds the same texts and the same attributes,
/// and that is written the same: always where the cookie has no expiry, and
/// otherwise if the expiry is read back from what is written for it.
pub proof fn law_reading_is_stable(s: Seq<u8>, borrowed: bool, again: bool)
    requires
        s.len() <= usize::MAX,
        parsed_cookie(s, borrowed) matches Ok(c) && c.serialized().len() <= usize::MAX,
    ensures
        ({
            let c = parsed_cookie(s, borrowed)->Ok_0;
            (c.expires is None || date_reads_back(c)) ==> (parsed_cookie(
                c.serialized(),
                again,
            ) matches Ok(d) && same_fields(c, d) && d.serialized() == c.serialized())
        }),
{
    law_parsed_cookie_is_tidy(s, borrowed);
    law_wire_form_reads_back(parsed_cookie(s, borrowed)->Ok_0, again);
}

} // verus!

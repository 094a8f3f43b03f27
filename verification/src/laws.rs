//! What holds of every cookie string and every cookie.
use crate::cookie::{parsed_cookie, same_fields, CookieView};
use crate::cookie_str::Text;
use crate::parse::{
    attribute_at, attribute_key, attributes_from, date_for, known_key, lemma_attribute_inside,
    lemma_attribute_moved, lemma_attribute_placed, lemma_trimmed_placed, parse_spec, Attribute,
    ParseError, Parsed, EQUALS, SEMICOLON,
};
use crate::text::{
    first_at, lemma_ascii_boundary, lemma_first_at, lemma_first_at_is, lemma_first_at_moved,
    lemma_subrange_moved, lemma_trimmed_moved, lemma_trimmed_range, same_bytes, trimmed,
};
use vstd::prelude::*;
use vstd::string::*;
use vstd::utf8::*;

verus! {

/// A cookie string of a name and a value alone is read as that pair: the
/// name is the trimmed text before the first `=`, the value the trimmed text
/// after it, and no attribute is set.
pub proof fn law_pair_alone(s: Seq<u8>, borrowed: bool)
    requires
        s.len() <= usize::MAX,
        forall|i: int| 0 <= i < s.len() ==> s[i] != SEMICOLON,
        first_at(s, EQUALS, 0, s.len() as int) < s.len(),
        trimmed(s, 0, first_at(s, EQUALS, 0, s.len() as int)).0 < trimmed(
            s,
            0,
            first_at(s, EQUALS, 0, s.len() as int),
        ).1,
    ensures
        ({
            let eq = first_at(s, EQUALS, 0, s.len() as int);
            let name = trimmed(s, 0, eq);
            let value = trimmed(s, eq + 1, s.len() as int);
            &&& parsed_cookie(s, borrowed) matches Ok(c)
            &&& c.wf_ranges()
            &&& c.name_text() == s.subrange(name.0, name.1)
            &&& c.value_text() == s.subrange(value.0, value.1)
            &&& c.expires is None
            &&& c.max_age is None
            &&& c.domain is None
            &&& c.path is None
            &&& c.secure is None
            &&& c.http_only is None
            &&& c.same_site is None
        }),
{
    let len = s.len() as int;
    lemma_first_at(s, EQUALS, 0, len);
    let eq = first_at(s, EQUALS, 0, len);
    lemma_first_at_is(s, SEMICOLON, eq + 1, len, len);
    lemma_trimmed_range(s, 0, eq);
    lemma_trimmed_range(s, eq + 1, len);
}

/// Reading attributes keeps every range between character boundaries.
proof fn lemma_attributes_placed(s: Seq<u8>, pos: int, acc: Parsed)
    requires
        valid_utf8(s),
        s.len() <= usize::MAX,
        0 <= pos <= s.len(),
        acc.placed_in(s),
    ensures
        attributes_from(s, pos, acc) matches Ok(p) ==> p.placed_in(s),
    decreases s.len() - pos,
{
    if pos < s.len() {
        let n = s.len() as int;
        lemma_first_at(s, SEMICOLON, pos + 1, n);
        let end = first_at(s, SEMICOLON, pos + 1, n);
        if end < n {
            lemma_ascii_boundary(s, end);
        } else {
            is_char_boundary_start_end_of_seq(s);
        }
        lemma_attribute_placed(s, pos + 1, end);
        let attr = attribute_at(s, pos + 1, end);
        match acc.with(attr, date_for(s, attr)) {
            Ok(next) => {
                lemma_attributes_placed(s, end, next);
            },
            Err(_) => {},
        }
    }
}

/// A cookie that is read from UTF-8 text is well formed: each of its texts
/// is a range of the text between character boundaries.
pub proof fn law_parsed_cookie_is_well_formed(s: Seq<u8>, borrowed: bool)
    requires
        valid_utf8(s),
        s.len() <= usize::MAX,
    ensures
        parsed_cookie(s, borrowed) matches Ok(c) ==> c.wf(),
{
    let n = s.len() as int;
    lemma_first_at(s, EQUALS, 0, n);
    let eq = first_at(s, EQUALS, 0, n);
    if eq < n {
        lemma_first_at(s, SEMICOLON, eq + 1, n);
        let end = first_at(s, SEMICOLON, eq + 1, n);
        is_char_boundary_start_end_of_seq(s);
        lemma_ascii_boundary(s, eq);
        if end < n {
            lemma_ascii_boundary(s, end);
        }
        lemma_trimmed_placed(s, 0, eq);
        lemma_trimmed_placed(s, eq + 1, end);
        let name = trimmed(s, 0, eq);
        let value = trimmed(s, eq + 1, end);
        let first = Parsed::start(
            (name.0 as usize, name.1 as usize),
            (value.0 as usize, value.1 as usize),
        );
        lemma_attributes_placed(s, end, first);
    }
}

/// Setting or clearing a text or an attribute leaves a cookie well formed,
/// and so does holding every text by value.
pub proof fn law_setters_keep_well_formed(c: CookieView, text: Seq<u8>)
    requires
        c.wf(),
    ensures
        (CookieView { name: Text::Concrete(text), ..c }).wf(),
        (CookieView { value: Text::Concrete(text), ..c }).wf(),
        (CookieView { domain: Some(Text::Concrete(text)), ..c }).wf(),
        (CookieView { path: Some(Text::Concrete(text)), ..c }).wf(),
        (CookieView { domain: None, ..c }).wf(),
        (CookieView { path: None, ..c }).wf(),
        c.owned().wf(),
{
}

/// Once a text of a cookie is set or cleared, it can no longer be read as it
/// stands in the source.
pub proof fn law_set_hides_raw(c: CookieView, text: Seq<u8>)
    ensures
        (CookieView { name: Text::Concrete(text), ..c }).name_raw() is None,
        (CookieView { value: Text::Concrete(text), ..c }).value_raw() is None,
        (CookieView { domain: Some(Text::Concrete(text)), ..c }).domain_raw() is None,
        (CookieView { path: Some(Text::Concrete(text)), ..c }).path_raw() is None,
        (CookieView { domain: None, ..c }).domain_raw() is None,
        (CookieView { path: None, ..c }).path_raw() is None,
{
}

/// A cookie that borrows nothing gives none of its texts as they stand in
/// the source, and all of them as they were.
pub proof fn law_owned_hides_raw(c: CookieView)
    ensures
        c.owned().name_raw() is None,
        c.owned().value_raw() is None,
        c.owned().domain_raw() is None,
        c.owned().path_raw() is None,
        c.owned().name_text() == c.name_text(),
        c.owned().value_text() == c.value_text(),
        c.owned().domain_text() == c.domain_text(),
        c.owned().path_text() == c.path_text(),
{
}

/// An attribute whose key is none of the seven changes nothing.
pub proof fn law_unknown_key_is_ignored(
    s: Seq<u8>,
    start: int,
    end: int,
    acc: Parsed,
)
    requires
        !known_key(attribute_key(s, start, end)),
    ensures
        attribute_at(s, start, end) == Attribute::Ignored,
        acc.with(attribute_at(s, start, end), date_for(s, attribute_at(s, start, end))) == Ok::<
            Parsed,
            ParseError,
        >(acc),
{
}

/// Whether `p` gives of `s` what `q` gives of `t`: the same texts, and the
/// same attributes.
pub open spec fn agree(s: Seq<u8>, p: Parsed, t: Seq<u8>, q: Parsed) -> bool {
    &&& ranges_in(p, s.len() as int)
    &&& ranges_in(q, t.len() as int)
    &&& t.subrange(q.name.0 as int, q.name.1 as int) == s.subrange(
        p.name.0 as int,
        p.name.1 as int,
    )
    &&& t.subrange(q.value.0 as int, q.value.1 as int) == s.subrange(
        p.value.0 as int,
        p.value.1 as int,
    )
    &&& q.expires == p.expires
    &&& q.max_age == p.max_age
    &&& match (p.domain, q.domain) {
        (Some(a), Some(b)) => t.subrange(b.0 as int, b.1 as int) == s.subrange(
            a.0 as int,
            a.1 as int,
        ),
        (None, None) => true,
        _ => false,
    }
    &&& match (p.path, q.path) {
        (Some(a), Some(b)) => t.subrange(b.0 as int, b.1 as int) == s.subrange(
            a.0 as int,
            a.1 as int,
        ),
        (None, None) => true,
        _ => false,
    }
    &&& q.secure == p.secure
    &&& q.http_only == p.http_only
    &&& q.same_site == p.same_site
}

/// Whether two readings end alike: with the same error, or with what agrees.
pub open spec fn agree_results(
    s: Seq<u8>,
    p: Result<Parsed, ParseError>,
    t: Seq<u8>,
    q: Result<Parsed, ParseError>,
) -> bool {
    match (p, q) {
        (Ok(p), Ok(q)) => agree(s, p, t, q),
        (Err(e), Err(f)) => e == f,
        _ => false,
    }
}

/// Whether every range lies in a text of `len` bytes.
pub open spec fn ranges_in(p: Parsed, len: int) -> bool {
    &&& p.name.0 <= p.name.1 <= len
    &&& p.value.0 <= p.value.1 <= len
    &&& (p.domain matches Some(r) ==> r.0 <= r.1 <= len)
    &&& (p.path matches Some(r) ==> r.0 <= r.1 <= len)
}

/// The same attribute, found `by` further on in a text that holds the same
/// bytes there, adds the same to what agrees.
proof fn lemma_with_agrees(
    s: Seq<u8>,
    p: Parsed,
    t: Seq<u8>,
    q: Parsed,
    start: int,
    end: int,
    by: int,
)
    requires
        s.len() <= usize::MAX,
        t.len() <= usize::MAX,
        0 <= start <= end <= s.len(),
        0 <= start + by,
        end + by <= t.len(),
        same_bytes(s, t, start, end, by),
        agree(s, p, t, q),
    ensures
        attribute_at(t, start + by, end + by) == attribute_at(s, start, end).moved(by),
        agree_results(
            s,
            p.with(attribute_at(s, start, end), date_for(s, attribute_at(s, start, end))),
            t,
            q.with(
                attribute_at(t, start + by, end + by),
                date_for(t, attribute_at(t, start + by, end + by)),
            ),
        ),
{
    lemma_attribute_moved(s, t, start, end, by);
    lemma_attribute_inside(s, start, end);
    match attribute_at(s, start, end) {
        Attribute::Domain(a, b) => {
            lemma_subrange_moved(s, t, start, end, by, a as int, b as int);
        },
        Attribute::Path(a, b) => {
            lemma_subrange_moved(s, t, start, end, by, a as int, b as int);
        },
        _ => {},
    }
}

/// Where `t` holds from `cut + by` on what `s` holds from `cut` on, the
/// attributes after a position at or past `cut` are read alike.
proof fn lemma_rest_agrees(
    s: Seq<u8>,
    p: Parsed,
    t: Seq<u8>,
    q: Parsed,
    cut: int,
    by: int,
    pos: int,
)
    requires
        t.len() <= usize::MAX,
        t.len() == s.len() + by,
        0 <= by,
        0 <= cut <= pos <= s.len(),
        same_bytes(s, t, cut, s.len() as int, by),
        agree(s, p, t, q),
    ensures
        agree_results(s, attributes_from(s, pos, p), t, attributes_from(t, pos + by, q)),
    decreases s.len() - pos,
{
    let n = s.len() as int;
    if pos < n {
        lemma_first_at(s, SEMICOLON, pos + 1, n);
        let end = first_at(s, SEMICOLON, pos + 1, n);
        assert(same_bytes(s, t, pos + 1, n, by));
        lemma_first_at_moved(s, t, SEMICOLON, pos + 1, n, by);
        assert(same_bytes(s, t, pos + 1, end, by));
        lemma_with_agrees(s, p, t, q, pos + 1, end, by);
        let attr = attribute_at(s, pos + 1, end);
        let moved = attribute_at(t, pos + 1 + by, end + by);
        match (p.with(attr, date_for(s, attr)), q.with(moved, date_for(t, moved))) {
            (Ok(next), Ok(other)) => {
                lemma_rest_agrees(s, next, t, other, cut, by, end);
            },
            _ => {},
        }
    }
}

/// Whether `t` is `s` with `;` and `token` put in at `cut`, where `s` ends or
/// goes on with `;`, and `token` holds no `;` and has none of the seven keys.
pub open spec fn put_in(s: Seq<u8>, t: Seq<u8>, cut: int, token: Seq<u8>) -> bool {
    &&& 0 <= cut <= s.len()
    &&& t.len() == s.len() + 1 + token.len()
    &&& t.len() <= usize::MAX
    &&& forall|i: int| 0 <= i < cut ==> s[i] == t[i]
    &&& t[cut] == SEMICOLON
    &&& same_bytes(token, t, 0, token.len() as int, cut + 1)
    &&& same_bytes(s, t, cut, s.len() as int, 1 + token.len() as int)
    &&& (cut < s.len() ==> s[cut] == SEMICOLON)
    &&& forall|i: int| 0 <= i < token.len() ==> token[i] != SEMICOLON
    &&& !known_key(attribute_key(token, 0, token.len() as int))
}

/// `before`, `;`, `token` and `after` in a row are `before` and `after` with
/// `;` and `token` put in between.
proof fn lemma_put_in(before: Seq<u8>, token: Seq<u8>, after: Seq<u8>)
    requires
        before.len() + 1 + token.len() + after.len() <= usize::MAX,
        after.len() > 0 ==> after[0] == SEMICOLON,
        forall|i: int| 0 <= i < token.len() ==> token[i] != SEMICOLON,
        !known_key(attribute_key(token, 0, token.len() as int)),
    ensures
        put_in(
            before + after,
            before + seq![SEMICOLON] + token + after,
            before.len() as int,
            token,
        ),
{
    let s = before + after;
    let t = before + seq![SEMICOLON] + token + after;
    let cut = before.len() as int;
    let by = 1 + token.len() as int;
    assert forall|i: int| 0 <= i < token.len() implies token[i] == #[trigger] t[i + (cut
        + 1)] by {}
    assert forall|i: int| cut <= i < s.len() implies s[i] == #[trigger] t[i + by] by {
        assert(s[i] == after[i - cut]);
        assert(t[i + by] == after[i - cut]);
    }
    if cut < s.len() {
        assert(s[cut] == after[0]);
    }
}

/// The end of an attribute that starts before `cut` is the same in both texts.
proof fn lemma_same_end(s: Seq<u8>, t: Seq<u8>, cut: int, token: Seq<u8>, from: int)
    requires
        put_in(s, t, cut, token),
        0 <= from <= cut,
    ensures
        first_at(t, SEMICOLON, from, t.len() as int) == first_at(
            s,
            SEMICOLON,
            from,
            s.len() as int,
        ),
        from <= first_at(s, SEMICOLON, from, s.len() as int) <= cut,
        same_bytes(s, t, from, first_at(s, SEMICOLON, from, s.len() as int), 0),
{
    lemma_first_at(s, SEMICOLON, from, s.len() as int);
    let end = first_at(s, SEMICOLON, from, s.len() as int);
    if end > cut {
        assert(s[cut] != SEMICOLON);
    }
    assert forall|i: int| from <= i < end implies t[i] != SEMICOLON by {
        assert(s[i] == t[i]);
    }
    lemma_first_at_is(t, SEMICOLON, from, t.len() as int, end);
    assert forall|i: int| from <= i < end implies s[i] == #[trigger] t[i + 0] by {
        assert(s[i] == t[i]);
    }
}

/// The attribute that was put in changes nothing.
proof fn lemma_unknown_step(s: Seq<u8>, t: Seq<u8>, cut: int, token: Seq<u8>, q: Parsed)
    requires
        put_in(s, t, cut, token),
    ensures
        attributes_from(t, cut, q) == attributes_from(t, cut + 1 + token.len(), q),
{
    let end = cut + 1 + token.len();
    if end < t.len() {
        assert(s[cut] == t[cut + (1 + token.len() as int)]);
    }
    assert forall|i: int| cut + 1 <= i < end implies t[i] != SEMICOLON by {
        assert(token[i - cut - 1] == t[(i - cut - 1) + (cut + 1)]);
    }
    lemma_first_at_is(t, SEMICOLON, cut + 1, t.len() as int, end);
    lemma_attribute_moved(token, t, 0, token.len() as int, cut + 1);
}

/// The attributes of a cookie string are read alike when an attribute whose
/// key is none of the seven is put among them.
proof fn lemma_attributes_with_unknown(
    s: Seq<u8>,
    t: Seq<u8>,
    cut: int,
    token: Seq<u8>,
    pos: int,
    p: Parsed,
    q: Parsed,
)
    requires
        put_in(s, t, cut, token),
        0 <= pos <= cut,
        agree(s, p, t, q),
    ensures
        agree_results(s, attributes_from(s, pos, p), t, attributes_from(t, pos, q)),
    decreases cut - pos,
{
    if pos == cut {
        lemma_unknown_step(s, t, cut, token, q);
        lemma_rest_agrees(s, p, t, q, cut, 1 + token.len() as int, cut);
    } else {
        lemma_same_end(s, t, cut, token, pos + 1);
        let end = first_at(s, SEMICOLON, pos + 1, s.len() as int);
        lemma_with_agrees(s, p, t, q, pos + 1, end, 0);
        let attr = attribute_at(s, pos + 1, end);
        let same = attribute_at(t, pos + 1, end);
        match (p.with(attr, date_for(s, attr)), q.with(same, date_for(t, same))) {
            (Ok(next), Ok(other)) => {
                lemma_attributes_with_unknown(s, t, cut, token, end, next, other);
            },
            _ => {},
        }
    }
}

/// A cookie string is read alike when an attribute whose key is none of the
/// seven is put among its attributes.
proof fn lemma_parse_with_unknown(s: Seq<u8>, t: Seq<u8>, cut: int, token: Seq<u8>)
    requires
        put_in(s, t, cut, token),
        first_at(s, EQUALS, 0, cut) < cut,
    ensures
        agree_results(s, parse_spec(s), t, parse_spec(t)),
{
    lemma_first_at(s, EQUALS, 0, cut);
    let eq = first_at(s, EQUALS, 0, cut);
    lemma_first_at_is(s, EQUALS, 0, s.len() as int, eq);
    assert forall|i: int| 0 <= i < eq implies t[i] != EQUALS by {
        assert(s[i] == t[i]);
    }
    assert(s[eq] == t[eq]);
    lemma_first_at_is(t, EQUALS, 0, t.len() as int, eq);
    lemma_same_end(s, t, cut, token, eq + 1);
    let end = first_at(s, SEMICOLON, eq + 1, s.len() as int);
    assert(same_bytes(s, t, 0, eq, 0)) by {
        assert forall|i: int| 0 <= i < eq implies s[i] == #[trigger] t[i + 0] by {
            assert(s[i] == t[i]);
        }
    }
    lemma_trimmed_moved(s, t, 0, eq, 0);
    lemma_trimmed_moved(s, t, eq + 1, end, 0);
    lemma_trimmed_range(s, 0, eq);
    lemma_trimmed_range(s, eq + 1, end);
    let name = trimmed(s, 0, eq);
    let value = trimmed(s, eq + 1, end);
    if name.0 < name.1 {
        let first = Parsed::start(
            (name.0 as usize, name.1 as usize),
            (value.0 as usize, value.1 as usize),
        );
        lemma_subrange_moved(s, t, 0, eq, 0, name.0, name.1);
        lemma_subrange_moved(s, t, eq + 1, end, 0, value.0, value.1);
        lemma_attributes_with_unknown(s, t, cut, token, end, first, first);
    }
}

/// What agrees gives cookies that hold the same texts and the same attributes.
proof fn lemma_agree_same_fields(s: Seq<u8>, p: Parsed, t: Seq<u8>, q: Parsed, borrowed: bool)
    requires
        agree(s, p, t, q),
    ensures
        same_fields(CookieView::of_parsed(s, borrowed, p), CookieView::of_parsed(t, borrowed, q)),
{
}

/// An attribute whose key is none of the seven, put anywhere among the
/// attributes of a cookie string, changes nothing of what is read: the
/// string is rejected as before, or gives a cookie with the same texts and
/// the same attributes.
///
/// `before` holds the name, the `=` and what else stands before the new
/// attribute; `after` is empty or starts the next attribute.
pub proof fn law_unknown_attribute_changes_nothing(
    before: Seq<u8>,
    token: Seq<u8>,
    after: Seq<u8>,
    borrowed: bool,
)
    requires
        before.len() + 1 + token.len() + after.len() <= usize::MAX,
        first_at(before, EQUALS, 0, before.len() as int) < before.len(),
        after.len() > 0 ==> after[0] == SEMICOLON,
        forall|i: int| 0 <= i < token.len() ==> token[i] != SEMICOLON,
        !known_key(attribute_key(token, 0, token.len() as int)),
    ensures
        match (
            parsed_cookie(before + after, borrowed),
            parsed_cookie(before + seq![SEMICOLON] + token + after, borrowed),
        ) {
            (Ok(c), Ok(d)) => same_fields(c, d),
            (Err(e), Err(f)) => e == f,
            _ => false,
        },
{
    let s = before + after;
    let t = before + seq![SEMICOLON] + token + after;
    let cut = before.len() as int;
    lemma_put_in(before, token, after);
    assert(first_at(s, EQUALS, 0, cut) == first_at(before, EQUALS, 0, cut)) by {
        assert(same_bytes(before, s, 0, cut, 0));
        lemma_first_at_moved(before, s, EQUALS, 0, cut, 0);
    }
    lemma_parse_with_unknown(s, t, cut, token);
    match (parse_spec(s), parse_spec(t)) {
        (Ok(p), Ok(q)) => {
            lemma_agree_same_fields(s, p, t, q, borrowed);
        },
        _ => {},
    }
}

} // verus!
